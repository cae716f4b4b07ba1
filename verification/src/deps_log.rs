//! The dependency log (`.ninja_deps`): header dependencies discovered while
//! building, stored in version 4 of the binary format.
//!
//! The file is a sequence of records that can be appended to during a build
//! and read in one pass at startup:
//!
//! * a **path record** holds a path string, padded to a 4-byte boundary and
//!   followed by the one's complement of its expected index (which detects two
//!   processes writing the same log),
//! * a **deps record** holds an output path id, the output's mtime and the ids
//!   of its inputs.
//!
//! Later records for the same output win, so updates are pure appends.

use vstd::prelude::*;
use vstd::string::*;

use crate::build_log::LoadStatus;
use crate::error::Error;
use crate::state::{NodeId, State};
use crate::text::{push_range, push_repeated, string_from_utf8};

verus! {

use crate::error::ErrorView;
use crate::state::{
    law_bindings_are_fixed, law_interning, lemma_node_index, lemma_node_update, nodes_below,
    optional_text, path_of, says_same, Escape, NodeView, StateView,
};
use crate::text::{lemma_encode_last, repeated};
use vstd::utf8::{decode_utf8, encode_utf8, encode_utf8_decode_utf8, encode_utf8_valid_utf8, valid_utf8};

/// The version of the format.
pub const CURRENT_VERSION: u32 = 4;

/// The most bytes that a record can have after its head.
pub const MAX_RECORD_SIZE: usize = 524287;

/// The recorded dependencies of one output.
#[derive(Debug)]
pub struct Deps {
    /// mtime of the output when these dependencies were recorded.
    pub mtime: i64,
    /// The input nodes.
    pub nodes: Vec<NodeId>,
}

/// The recorded dependencies of one output by what they say.
pub struct DepsView {
    pub mtime: i64,
    pub nodes: Seq<NodeId>,
}

impl View for Deps {
    type V = DepsView;

    open spec fn view(&self) -> DepsView {
        DepsView { mtime: self.mtime, nodes: self.nodes@ }
    }
}

/// What is to become of a log file after it has been read.
#[derive(Copy, Clone, PartialEq, Eq, Structural, Debug)]
pub enum Repair {
    /// It is fine as it is.
    Keep,
    /// It is of no use and goes.
    Remove,
    /// Only its first bytes are of use.
    Truncate(usize),
}

/// The result of loading a deps log.
#[derive(Debug)]
pub struct DepsLoadResult {
    /// Whether a log was found.
    pub status: LoadStatus,
    /// A non-fatal problem worth telling the user about.
    pub warning: Option<String>,
    /// What is to become of the file.
    pub repair: Repair,
}

/// The first bytes of every log: the signature.
pub open spec fn signature() -> Seq<u8> {
    seq![35u8, 32u8, 110u8, 105u8, 110u8, 106u8, 97u8, 100u8, 101u8, 112u8, 115u8, 10u8]
}

/// What a log starts with: the signature, then the version.
pub open spec fn header() -> Seq<u8> {
    signature() + word(CURRENT_VERSION as nat)
}

/// A number as four bytes, the least significant one first.
pub open spec fn word(n: nat) -> Seq<u8> {
    seq![
        (n % 256) as u8,
        (n / 256 % 256) as u8,
        (n / 65536 % 256) as u8,
        (n / 16777216 % 256) as u8,
    ]
}

/// The number that four bytes stand for.
pub open spec fn word_at(c: Seq<u8>, p: int) -> nat {
    (c[p] + 256 * c[p + 1] + 65536 * c[p + 2] + 16777216 * c[p + 3]) as nat
}

/// An mtime as a number without sign, in two's complement.
pub open spec fn unsigned(mtime: i64) -> nat {
    if mtime < 0 {
        (mtime + 0x1_0000_0000_0000_0000) as nat
    } else {
        mtime as nat
    }
}

/// The mtime that the two halves of a number stand for.
pub open spec fn mtime_of(low: nat, high: nat) -> i64 {
    let n = high * 0x1_0000_0000 + low;
    if n >= 0x8000_0000_0000_0000 {
        (n - 0x1_0000_0000_0000_0000) as i64
    } else {
        n as i64
    }
}

/// A deps log by what it holds.
#[verifier::ext_equal]
pub struct DepsLogView {
    /// Nodes in file order; the index is the node's id in this log.
    pub nodes: Seq<NodeId>,
    /// Dependencies by the id of the output.
    pub deps: Seq<Option<DepsView>>,
    /// Whether the log should be rewritten.
    pub stale: bool,
}

/// The log that holds nothing.
pub open spec fn empty_log() -> DepsLogView {
    DepsLogView { nodes: Seq::empty(), deps: Seq::empty(), stale: false }
}

/// Whether the ids of recorded dependencies are ids of the graph.
pub open spec fn deps_fit(d: Option<DepsView>, n: nat) -> bool {
    d matches Some(v) ==> nodes_below(v.nodes, n)
}

impl DepsLogView {
    /// Whether all ids are ids of the graph.
    pub open spec fn fits(self, n: nat) -> bool {
        &&& nodes_below(self.nodes, n)
        &&& forall|i: int| 0 <= i < self.deps.len() ==> deps_fit(#[trigger] self.deps[i], n)
    }

    /// The dependencies of `node`, if any are recorded.
    pub open spec fn deps_of(self, s: StateView, node: NodeId) -> Option<DepsView> {
        let id = s.nodes[node.0 as int].deps_log_id;
        if 0 <= id < self.deps.len() {
            self.deps[id as int]
        } else {
            None
        }
    }

    /// The first id from `k` on whose dependencies hold `node`.
    pub open spec fn first_holding(self, node: NodeId, k: int) -> Option<int>
        decreases self.deps.len() - k,
    {
        if 0 <= k < self.deps.len() {
            if self.deps[k] matches Some(d) && d.nodes.contains(node) {
                Some(k)
            } else {
                self.first_holding(node, k + 1)
            }
        } else {
            None
        }
    }

    /// The first output whose dependencies hold `node`.
    pub open spec fn first_dependent(self, node: NodeId) -> Option<NodeId> {
        match self.first_holding(node, 0) {
            Some(k) => if k < self.nodes.len() {
                Some(self.nodes[k])
            } else {
                None
            },
            None => None,
        }
    }
}

/// The dependencies with those of output `id` replaced.
pub open spec fn with_deps(deps: Seq<Option<DepsView>>, id: nat, d: DepsView) -> Seq<
    Option<DepsView>,
> {
    Seq::new(
        if id < deps.len() {
            deps.len()
        } else {
            id + 1
        },
        |i: int|
            if i == id {
                Some(d)
            } else if i < deps.len() {
                deps[i]
            } else {
                None
            },
    )
}

/// What has been read of a log.
#[verifier::ext_equal]
pub struct Reading {
    pub state: StateView,
    pub nodes: Seq<NodeId>,
    pub deps: Seq<Option<DepsView>>,
    /// How many records gave an output its first dependencies.
    pub unique: nat,
    /// How many records gave dependencies.
    pub total: nat,
}

impl Reading {
    /// The log that has been read.
    pub open spec fn log(self) -> DepsLogView {
        DepsLogView { nodes: self.nodes, deps: self.deps, stale: false }
    }
}

/// The nodes that `n` words from position `p` on name, if all of them are ids
/// of the log.
pub open spec fn named_nodes(nodes: Seq<NodeId>, c: Seq<u8>, p: int, n: nat) -> Option<
    Seq<NodeId>,
>
    decreases n,
{
    if n == 0 {
        Some(Seq::empty())
    } else {
        let id = word_at(c, p + 4 * (n - 1));
        match named_nodes(nodes, c, p, (n - 1) as nat) {
            Some(v) => if id < nodes.len() {
                Some(v.push(nodes[id as int]))
            } else {
                None
            },
            None => None,
        }
    }
}

/// What a deps record makes of what has been read, and whether it is valid.
pub open spec fn deps_read(r: Reading, b: Seq<u8>) -> (Reading, bool) {
    if b.len() % 4 != 0 || b.len() < 12 {
        (r, false)
    } else {
        match named_nodes(r.nodes, b, 12, (b.len() / 4 - 3) as nat) {
            None => (r, false),
            Some(v) => {
                let id = word_at(b, 0);
                let d = DepsView { mtime: mtime_of(word_at(b, 4), word_at(b, 8)), nodes: v };
                (
                    Reading {
                        deps: with_deps(r.deps, id, d),
                        total: r.total + 1,
                        unique: if id < r.deps.len() && r.deps[id as int] is Some {
                            r.unique
                        } else {
                            r.unique + 1
                        },
                        ..r
                    },
                    true,
                )
            },
        }
    }
}

/// The length of a path of at most `n` bytes without up to `k` bytes of padding.
pub open spec fn unpadded(b: Seq<u8>, n: int, k: nat) -> int
    decreases k,
{
    if k > 0 && 0 < n <= b.len() && b[n - 1] == 0 {
        unpadded(b, n - 1, (k - 1) as nat)
    } else {
        n
    }
}

/// The id that the `n`-th node of a log gets.
pub open spec fn id_at(n: nat) -> i32 {
    (n as u32) as i32
}

/// The graph with `node` numbered as the `n`-th of the log.
pub open spec fn numbered(s: StateView, node: NodeId, n: nat) -> StateView {
    let i = node.0 as int;
    s.with_node(i, NodeView { deps_log_id: id_at(n), ..s.nodes[i] })
}

/// What a path record makes of what has been read, and whether it is valid.
pub open spec fn path_read(r: Reading, b: Seq<u8>) -> (Reading, bool) {
    let n = unpadded(b, b.len() - 4, 3);
    if b.len() <= 4 || n == 0 || !valid_utf8(b.take(n)) {
        (r, false)
    } else {
        let path = decode_utf8(b.take(n));
        let s = r.state.interned(path, 0);
        let node = r.state.id_of(path);
        let expected = 0xffff_ffff - word_at(b, b.len() - 4);
        if (r.nodes.len() as u32) as int != expected || s.nodes[node.0 as int].deps_log_id >= 0 {
            (Reading { state: s, ..r }, false)
        } else {
            (
                Reading {
                    state: numbered(s, node, r.nodes.len()),
                    nodes: r.nodes.push(node),
                    ..r
                },
                true,
            )
        }
    }
}

/// What the records from position `p` on make of what has been read, and how
/// many bytes of the log are of use, where not all are.
pub open spec fn records_read(c: Seq<u8>, p: int, r: Reading) -> (Reading, Option<int>)
    decreases c.len() - p,
{
    if p < 0 || p + 4 > c.len() {
        (
            r,
            if p == c.len() {
                None
            } else {
                Some(p)
            },
        )
    } else {
        let w = word_at(c, p);
        let size = (w % 0x8000_0000) as int;
        let body = p + 4;
        if size > MAX_RECORD_SIZE || body + size > c.len() {
            (r, Some(p))
        } else {
            let b = c.subrange(body, body + size);
            let (n, valid) = if w >= 0x8000_0000 {
                deps_read(r, b)
            } else {
                path_read(r, b)
            };
            if valid {
                records_read(c, body + size, n)
            } else {
                (n, Some(body + size))
            }
        }
    }
}

/// Whether a log that was read should be rewritten.
pub open spec fn is_mostly_stale(r: Reading) -> bool {
    r.total > 1000 && r.total > r.unique * 3
}

/// Whether the bytes start with the signature and a version.
pub open spec fn has_header(c: Seq<u8>) -> bool {
    c.len() >= 16 && c.take(12) == signature()
}

/// The version that the bytes declare, 0 where they declare none.
pub open spec fn declared_version(c: Seq<u8>) -> nat {
    if has_header(c) {
        word_at(c, 12)
    } else {
        0
    }
}

/// Where reading starts.
pub open spec fn reading_start(log: DepsLogView, s: StateView) -> Reading {
    Reading { state: s, nodes: log.nodes, deps: log.deps, unique: 0, total: 0 }
}

fn read_word(c: &[u8], p: usize) -> (r: u32)
    requires
        p + 4 <= c@.len(),
    ensures
        r == word_at(c@, p as int),
{
    c[p] as u32 + 256 * (c[p + 1] as u32) + 65536 * (c[p + 2] as u32) + 16777216 * (c[p + 3] as u32)
}

fn push_word(out: &mut Vec<u8>, n: u32)
    ensures
        final(out)@ == old(out)@ + word(n as nat),
{
    out.push((n % 256) as u8);
    out.push((n / 256 % 256) as u8);
    out.push((n / 65536 % 256) as u8);
    out.push((n / 16777216 % 256) as u8);
    assert(out@ =~= old(out)@ + word(n as nat));
}

fn mtime_from(low: u32, high: u32) -> (r: i64)
    ensures
        r == mtime_of(low as nat, high as nat),
{
    let n: u64 = high as u64 * 0x1_0000_0000 + low as u64;
    if n >= 0x8000_0000_0000_0000 {
        (n - 0x8000_0000_0000_0000) as i64 + i64::MIN
    } else {
        n as i64
    }
}

fn to_unsigned(mtime: i64) -> (r: u64)
    ensures
        r == unsigned(mtime),
{
    if mtime < 0 {
        (mtime - i64::MIN) as u64 + 0x8000_0000_0000_0000
    } else {
        mtime as u64
    }
}

/// The dependencies by what they say.
pub open spec fn deps_views(v: Seq<Option<Deps>>) -> Seq<Option<DepsView>> {
    Seq::new(
        v.len(),
        |i: int|
            match v[i] {
                Some(d) => Some(d@),
                None => None,
            },
    )
}

/// The deps log.
pub struct DepsLog {
    nodes: Vec<NodeId>,
    deps: Vec<Option<Deps>>,
    needs_recompaction: bool,
}

impl View for DepsLog {
    type V = DepsLogView;

    closed spec fn view(&self) -> DepsLogView {
        DepsLogView {
            nodes: self.nodes@,
            deps: deps_views(self.deps@),
            stale: self.needs_recompaction,
        }
    }
}

/// How many records gave dependencies.
struct Counts {
    unique: u128,
    total: u128,
}

impl DepsLog {
    spec fn reading(&self, s: StateView, counts: Counts) -> Reading {
        Reading {
            state: s,
            nodes: self@.nodes,
            deps: self@.deps,
            unique: counts.unique as nat,
            total: counts.total as nat,
        }
    }

    /// An empty log.
    pub fn new() -> (r: DepsLog)
        ensures
            r@ == empty_log(),
    {
        let r = DepsLog { nodes: Vec::new(), deps: Vec::new(), needs_recompaction: false };
        assert(r@ =~= empty_log());
        r
    }

    /// Nodes known to the log, in file order.
    pub fn nodes(&self) -> (r: &[NodeId])
        ensures
            r@ == self@.nodes,
    {
        self.nodes.as_slice()
    }

    /// True if the log should be rewritten.
    pub fn needs_recompaction(&self) -> (r: bool)
        ensures
            r == self@.stale,
    {
        self.needs_recompaction
    }

    /// The recorded dependencies of `node`, if any.
    pub fn get_deps(&self, state: &State, node: NodeId) -> (r: Option<&Deps>)
        requires
            node.0 < state@.nodes.len(),
        ensures
            match (r, self@.deps_of(state@, node)) {
                (Some(d), Some(w)) => d@ == w,
                (None, None) => true,
                _ => false,
            },
    {
        let id: i32 = state.node(node).deps_log_id;
        if id < 0 || id as usize >= self.deps.len() {
            return None;
        }
        assert(self@.deps[id as int] == deps_views(self.deps@)[id as int]);
        match &self.deps[id as usize] {
            Some(d) => Some(d),
            None => None,
        }
    }

    /// The first output whose recorded dependencies hold `node`.
    pub fn first_reverse_deps_node(&self, node: NodeId) -> (r: Option<NodeId>)
        ensures
            r == self@.first_dependent(node),
            r matches Some(n) ==> self@.nodes.contains(n),
    {
        let mut k: usize = 0;
        while k < self.deps.len()
            invariant
                k <= self.deps@.len(),
                self@.first_holding(node, k as int) == self@.first_holding(node, 0),
            decreases self.deps@.len() - k,
        {
            assert(self@.deps[k as int] == deps_views(self.deps@)[k as int]);
            match &self.deps[k] {
                Some(d) => {
                    if holds(d.nodes.as_slice(), node) {
                        return if k < self.nodes.len() {
                            Some(self.nodes[k])
                        } else {
                            None
                        };
                    }
                },
                None => {},
            }
            k += 1;
        }
        None
    }

    /// True if `node`'s deps entry is still reachable from the manifest.
    ///
    /// Entries for outputs that have left the build, or whose rule no longer
    /// sets `deps`, are dropped on recompaction.
    pub fn is_deps_entry_live_for(state: &State, node: NodeId) -> (r: bool)
        requires
            state.wf(),
            node.0 < state@.nodes.len(),
        ensures
            r == is_live(state@, node),
    {
        proof {
            state.lemma_wf();
            assert(state@.node_ok(state@.nodes[node.0 as int]));
        }
        match state.node(node).in_edge() {
            Some(e) => state.edge_binding_bool(e, "deps"),
            None => false,
        }
    }

    fn update_deps(&mut self, id: usize, d: Deps) -> (r: bool)
        ensures
            final(self)@ == (DepsLogView { deps: with_deps(old(self)@.deps, id as nat, d@), ..old(
                self)@ }),
            r == (id < old(self)@.deps.len() && old(self)@.deps[id as int] is Some),
    {
        let ghost before = self.deps@;
        let ghost dv = d@;
        while self.deps.len() <= id
            invariant
                self.nodes == old(self).nodes,
                self.needs_recompaction == old(self).needs_recompaction,
                before.len() <= self.deps@.len(),
                self.deps@.len() == before.len() || self.deps@.len() <= id + 1,
                forall|i: int|
                    0 <= i < self.deps@.len() ==> #[trigger] self.deps@[i] == if i < before.len() {
                        before[i]
                    } else {
                        None
                    },
            decreases id + 1 - self.deps@.len(),
        {
            self.deps.push(None);
        }
        let replaced: bool = match &self.deps[id] {
            Some(_) => true,
            None => false,
        };
        self.deps.set(id, Some(d));
        proof {
            let want = with_deps(deps_views(before), id as nat, dv);
            assert(deps_views(self.deps@).len() == want.len());
            assert forall|i: int| 0 <= i < want.len() implies deps_views(self.deps@)[i] == want[i] by {}
            assert(deps_views(self.deps@) =~= want);
            if id < before.len() {
                assert(old(self)@.deps[id as int] == deps_views(before)[id as int]);
            }
        }
        replaced
    }

    fn read_deps(&mut self, b: &[u8], counts: &mut Counts, Ghost(s): Ghost<StateView>) -> (r: bool)
        requires
            old(self)@.fits(s.nodes.len()),
            old(counts).unique <= old(counts).total < u128::MAX,
        ensures
            (final(self).reading(s, *final(counts)), r) == deps_read(
                old(self).reading(s, *old(counts)),
                b@,
            ),
            final(self)@.fits(s.nodes.len()),
            final(self)@.stale == old(self)@.stale,
            final(counts).unique <= final(counts).total <= old(counts).total + 1,
    {
        let size: usize = b.len();
        if size % 4 != 0 || size < 12 {
            return false;
        }
        let count: usize = size / 4 - 3;
        let mut nodes: Vec<NodeId> = Vec::new();
        let mut i: usize = 0;
        while i < count
            invariant
                i <= count,
                b@.len() == size,
                count == size / 4 - 3,
                size % 4 == 0,
                size >= 12,
                *self == *old(self),
                *counts == *old(counts),
                self@.fits(s.nodes.len()),
                counts.unique <= counts.total,
                named_nodes(self@.nodes, b@, 12, i as nat) == Some(nodes@),
                nodes_below(nodes@, s.nodes.len()),
            decreases count - i,
        {
            let id: u32 = read_word(b, 12 + 4 * i);
            assert(id == word_at(b@, 12 + 4 * ((i + 1) as nat - 1)));
            if id as usize >= self.nodes.len() {
                proof {
                    lemma_unnamed(self@.nodes, b@, 12, (i + 1) as nat, count as nat);
                }
                return false;
            }
            nodes.push(self.nodes[id as usize]);
            i += 1;
        }
        let id: u32 = read_word(b, 0);
        let mtime: i64 = mtime_from(read_word(b, 4), read_word(b, 8));
        let d = Deps { mtime, nodes };
        let ghost dv = d@;
        counts.total = counts.total + 1;
        if !self.update_deps(id as usize, d) {
            counts.unique = counts.unique + 1;
        }
        proof {
            assert forall|k: int| 0 <= k < self@.deps.len() implies deps_fit(
                #[trigger] self@.deps[k],
                s.nodes.len(),
            ) by {
                if k == id {
                } else if k < old(self)@.deps.len() {
                    assert(deps_fit(old(self)@.deps[k], s.nodes.len()));
                }
            }
        }
        true
    }

    fn read_path(&mut self, state: &mut State, b: &[u8], Ghost(c): Ghost<Counts>) -> (r: bool)
        requires
            old(state).wf(),
            old(self)@.fits(old(state)@.nodes.len()),
        ensures
            final(state).wf(),
            final(state)@.edges == old(state)@.edges,
            (final(self).reading(final(state)@, c), r) == path_read(
                old(self).reading(old(state)@, c),
                b@,
            ),
            final(self)@.fits(final(state)@.nodes.len()),
            final(self)@.stale == old(self)@.stale,
    {
        let size: usize = b.len();
        if size <= 4 {
            return false;
        }
        let mut n: usize = size - 4;
        let mut k: usize = 3;
        while k > 0 && n > 0 && b[n - 1] == 0
            invariant
                n <= size - 4,
                b@.len() == size,
                size > 4,
                unpadded(b@, n as int, k as nat) == unpadded(b@, b@.len() - 4, 3),
            decreases k,
        {
            n -= 1;
            k -= 1;
        }
        if n == 0 {
            return false;
        }
        let mut bytes: Vec<u8> = Vec::new();
        push_range(&mut bytes, b, 0, n);
        assert(bytes@ =~= b@.take(n as int));
        let path = match string_from_utf8(bytes) {
            Some(p) => p,
            None => {
                return false;
            },
        };
        let ghost s0 = state@;
        proof {
            state.lemma_wf();
        }
        // The slash bits can be 0 here: either the node is also in the manifest
        // (and already has the right value), or it is an implicit dependency
        // whose spelling never reaches a command.
        let node = state.get_node(path.as_str(), 0);
        assert(self@.fits(state@.nodes.len())) by {
            lemma_fits_grown(self@, s0.nodes.len(), state@.nodes.len());
        }
        let expected: u32 = 0xffff_ffff - read_word(b, size - 4);
        let id: u32 = self.nodes.len() as u32;
        if id != expected || state.node(node).deps_log_id >= 0 {
            return false;
        }
        let ghost s1 = state@;
        proof {
            state.lemma_wf();
        }
        state.node_mut(node).deps_log_id = id as i32;
        proof {
            assert(state@ == numbered(s1, node, self@.nodes.len()));
            lemma_node_update(s1, node.0 as int, state@.nodes[node.0 as int]);
        }
        self.nodes.push(node);
        true
    }
}

/// What loading a log makes of it.
pub open spec fn loaded(log: DepsLogView, s: StateView, contents: Option<Seq<u8>>) -> (
    DepsLogView,
    StateView,
) {
    match contents {
        None => (log, s),
        Some(c) => if declared_version(c) != CURRENT_VERSION {
            (log, s)
        } else {
            let (r, cut) = records_read(c, 16, reading_start(log, s));
            (
                DepsLogView {
                    nodes: r.nodes,
                    deps: r.deps,
                    stale: log.stale || (cut is None && is_mostly_stale(r)),
                },
                r.state,
            )
        },
    }
}

/// What is said of the log that was loaded.
pub open spec fn load_warning(log: DepsLogView, s: StateView, contents: Option<Seq<u8>>) -> Option<
    Seq<char>,
> {
    match contents {
        None => None,
        Some(c) => if declared_version(c) == 1 {
            Some("deps log version change; rebuilding"@)
        } else if declared_version(c) != CURRENT_VERSION {
            Some("bad deps log signature or version; starting over"@)
        } else if records_read(c, 16, reading_start(log, s)).1 is Some {
            Some("premature end of file; recovering"@)
        } else {
            None
        },
    }
}

/// What is to become of the file that was loaded.
pub open spec fn load_repair(log: DepsLogView, s: StateView, contents: Option<Seq<u8>>) -> Repair {
    match contents {
        None => Repair::Keep,
        Some(c) => if declared_version(c) != CURRENT_VERSION {
            Repair::Remove
        } else {
            match records_read(c, 16, reading_start(log, s)).1 {
                Some(n) => Repair::Truncate(n as usize),
                None => Repair::Keep,
            }
        },
    }
}

fn version_of(c: &[u8]) -> (r: u32)
    ensures
        r == declared_version(c@),
{
    if c.len() < 16 {
        return 0;
    }
    let sig = signature_bytes();
    let mut i: usize = 0;
    while i < 12
        invariant
            i <= 12,
            c@.len() >= 16,
            sig@ == signature(),
            forall|k: int| 0 <= k < i ==> c@[k] == signature()[k],
        decreases 12 - i,
    {
        if c[i] != sig[i] {
            assert(c@.take(12)[i as int] != signature()[i as int]);
            return 0;
        }
        i += 1;
    }
    assert(c@.take(12) =~= signature());
    read_word(c, 12)
}

fn signature_bytes() -> (r: Vec<u8>)
    ensures
        r@ == signature(),
{
    let r: Vec<u8> = vec![35u8, 32u8, 110u8, 105u8, 110u8, 106u8, 97u8, 100u8, 101u8, 112u8, 115u8, 10u8];
    assert(r@ =~= signature());
    r
}

/// The bytes that a log starts with.
pub fn header_bytes() -> (r: Vec<u8>)
    ensures
        r@ == header(),
{
    let mut r = signature_bytes();
    push_word(&mut r, CURRENT_VERSION);
    r
}

impl DepsLog {
    /// Load the contents of a log file (`None` when there is none), creating
    /// nodes in `state` as needed.
    pub fn load(&mut self, contents: Option<&[u8]>, state: &mut State) -> (r: DepsLoadResult)
        requires
            old(state).wf(),
            old(self)@.fits(old(state)@.nodes.len()),
        ensures
            final(state).wf(),
            final(state)@.edges == old(state)@.edges,
            final(self)@.fits(final(state)@.nodes.len()),
            (final(self)@, final(state)@) == loaded(
                old(self)@,
                old(state)@,
                optional_bytes(contents),
            ),
            r.status == if contents is None {
                LoadStatus::NotFound
            } else {
                LoadStatus::Success
            },
            optional_text(r.warning) == load_warning(
                old(self)@,
                old(state)@,
                optional_bytes(contents),
            ),
            r.repair == load_repair(old(self)@, old(state)@, optional_bytes(contents)),
    {
        let c = match contents {
            None => {
                return DepsLoadResult {
                    status: LoadStatus::NotFound,
                    warning: None,
                    repair: Repair::Keep,
                };
            },
            Some(c) => c,
        };
        let version: u32 = version_of(c);
        if version != CURRENT_VERSION {
            // An empty deps log just means the outputs get rebuilt.
            return DepsLoadResult {
                status: LoadStatus::Success,
                warning: Some(
                    if version == 1 {
                        "deps log version change; rebuilding".to_owned()
                    } else {
                        "bad deps log signature or version; starting over".to_owned()
                    },
                ),
                repair: Repair::Remove,
            };
        }
        let mut counts = Counts { unique: 0, total: 0 };
        let ghost start = reading_start(self@, state@);
        let ghost want = records_read(c@, 16, start);
        let mut pos: usize = 16;
        let mut bad: bool = false;
        while !bad && c.len() - pos >= 4
            invariant
                16 <= pos <= c@.len(),
                state.wf(),
                state@.edges == old(state)@.edges,
                self@.fits(state@.nodes.len()),
                self@.stale == old(self)@.stale,
                counts.unique <= counts.total <= pos,
                !bad ==> records_read(c@, pos as int, self.reading(state@, counts)) == want,
                bad ==> want == (self.reading(state@, counts), Some(pos as int)),
            decreases c@.len() - pos,
                (if bad {
                    0int
                } else {
                    1
                }),
        {
            let head: u32 = read_word(c, pos);
            let size: usize = (head % 0x8000_0000) as usize;
            if size > MAX_RECORD_SIZE || size > c.len() - pos - 4 {
                bad = true;
            } else {
                let b = vstd::slice::slice_subrange(c, pos + 4, pos + 4 + size);
                let valid: bool = if head >= 0x8000_0000 {
                    self.read_deps(b, &mut counts, Ghost(state@))
                } else {
                    self.read_path(state, b, Ghost(counts))
                };
                pos = pos + 4 + size;
                if !valid {
                    bad = true;
                }
            }
        }
        if bad || pos != c.len() {
            return DepsLoadResult {
                status: LoadStatus::Success,
                warning: Some("premature end of file; recovering".to_owned()),
                repair: Repair::Truncate(pos),
            };
        }
        if counts.total > 1000 && counts.total > counts.unique * 3 {
            self.needs_recompaction = true;
        }
        DepsLoadResult { status: LoadStatus::Success, warning: None, repair: Repair::Keep }
    }
}

/// Bytes that may be missing, as a sequence.
pub open spec fn optional_bytes(o: Option<&[u8]>) -> Option<Seq<u8>> {
    match o {
        Some(b) => Some(b@),
        None => None,
    }
}

/// What has been written to a log.
#[verifier::ext_equal]
pub struct Writing {
    pub state: StateView,
    pub nodes: Seq<NodeId>,
    /// The bytes to append to the file.
    pub bytes: Seq<u8>,
    /// Whether any node had no id yet.
    pub grown: bool,
}

/// The number of bytes that fill up a path of `n` bytes.
pub open spec fn padding(n: nat) -> nat {
    ((4 - n % 4) % 4) as nat
}

/// The size of the record for a path.
pub open spec fn path_record_size(path: Seq<char>) -> nat {
    let n = encode_utf8(path).len();
    n + padding(n) + 4
}

/// The record that makes `path` the `id`-th of the log.
pub open spec fn path_record(path: Seq<char>, id: u32) -> Seq<u8> {
    let b = encode_utf8(path);
    word(path_record_size(path)) + b + repeated(0u8, padding(b.len()) as int) + word(
        (0xffff_ffff - id) as nat,
    )
}

/// What is written for a node that has no id yet, or why nothing can be.
pub open spec fn id_written(w: Writing, node: NodeId) -> Result<Writing, Seq<char>> {
    let path = w.state.nodes[node.0 as int].path;
    if w.state.nodes[node.0 as int].deps_log_id >= 0 {
        Ok(w)
    } else if path_record_size(path) > MAX_RECORD_SIZE {
        Err("path '"@ + path + "' is too long for the deps log"@)
    } else {
        Ok(
            Writing {
                state: numbered(w.state, node, w.nodes.len()),
                nodes: w.nodes.push(node),
                bytes: w.bytes + path_record(path, w.nodes.len() as u32),
                grown: true,
            },
        )
    }
}

/// What is written for the nodes from the `k`-th on, and why not more.
pub open spec fn ids_written(w: Writing, nodes: Seq<NodeId>, k: int) -> (Writing, Option<Seq<char>>)
    decreases nodes.len() - k,
{
    if 0 <= k < nodes.len() {
        match id_written(w, nodes[k]) {
            Ok(n) => ids_written(n, nodes, k + 1),
            Err(e) => (w, Some(e)),
        }
    } else {
        (w, None)
    }
}

/// The ids of the nodes, as words.
pub open spec fn id_words(s: StateView, nodes: Seq<NodeId>) -> Seq<u8>
    decreases nodes.len(),
{
    if nodes.len() == 0 {
        Seq::empty()
    } else {
        id_words(s, nodes.drop_last()) + word(
            (s.nodes[nodes.last().0 as int].deps_log_id as u32) as nat,
        )
    }
}

/// The size of a record of `n` dependencies.
pub open spec fn deps_record_size(n: nat) -> nat {
    4 * (3 + n)
}

/// The record of the dependencies of `node`.
pub open spec fn deps_record(s: StateView, node: NodeId, d: DepsView) -> Seq<u8> {
    word(deps_record_size(d.nodes.len()) + 0x8000_0000) + word(
        (s.nodes[node.0 as int].deps_log_id as u32) as nat,
    ) + word(unsigned(d.mtime) % 0x1_0000_0000) + word(unsigned(d.mtime) / 0x1_0000_0000)
        + id_words(s, d.nodes)
}

/// What recording dependencies comes to.
#[verifier::ext_equal]
pub struct Recorded {
    pub log: DepsLogView,
    pub state: StateView,
    /// The bytes to append to the file.
    pub bytes: Seq<u8>,
    /// Why the dependencies could not be recorded.
    pub error: Option<Seq<char>>,
}

/// What recording the dependencies of `node` comes to. Nothing is written when
/// the information is unchanged.
pub open spec fn deps_recorded(log: DepsLogView, s: StateView, node: NodeId, d: DepsView) -> Recorded {
    let (w, error) = ids_written(
        Writing { state: s, nodes: log.nodes, bytes: Seq::empty(), grown: false },
        seq![node] + d.nodes,
        0,
    );
    let l = DepsLogView { nodes: w.nodes, ..log };
    if error is Some {
        Recorded { log: l, state: w.state, bytes: w.bytes, error }
    } else if !w.grown && log.deps_of(s, node) == Some(d) {
        Recorded { log: l, state: w.state, bytes: w.bytes, error: None }
    } else if deps_record_size(d.nodes.len()) > MAX_RECORD_SIZE {
        Recorded {
            log: l,
            state: w.state,
            bytes: w.bytes,
            error: Some(
                "deps record for '"@ + w.state.nodes[node.0 as int].path + "' is too large"@,
            ),
        }
    } else {
        Recorded {
            log: DepsLogView {
                deps: with_deps(
                    log.deps,
                    (w.state.nodes[node.0 as int].deps_log_id as u32) as nat,
                    d,
                ),
                ..l
            },
            state: w.state,
            bytes: w.bytes + deps_record(w.state, node, d),
            error: None,
        }
    }
}

proof fn lemma_ids_written_edges(w: Writing, nodes: Seq<NodeId>, k: int)
    ensures
        ids_written(w, nodes, k).0.state.edges == w.state.edges,
        ids_written(w, nodes, k).0.state.pools == w.state.pools,
    decreases nodes.len() - k,
{
    if 0 <= k < nodes.len() {
        match id_written(w, nodes[k]) {
            Ok(n) => {
                lemma_ids_written_edges(n, nodes, k + 1);
            },
            Err(_) => {},
        }
    }
}

/// Recording dependencies leaves the edges of the graph alone.
pub proof fn lemma_recorded_edges(log: DepsLogView, s: StateView, node: NodeId, d: DepsView)
    ensures
        deps_recorded(log, s, node, d).state.edges == s.edges,
        deps_recorded(log, s, node, d).state.pools == s.pools,
{
    lemma_ids_written_edges(
        Writing { state: s, nodes: log.nodes, bytes: Seq::empty(), grown: false },
        seq![node] + d.nodes,
        0,
    );
}

/// The graph with the first `k` nodes of the log without an id.
pub open spec fn unnumbered(s: StateView, nodes: Seq<NodeId>, k: int) -> StateView
    decreases k,
{
    if k <= 0 {
        s
    } else {
        let t = unnumbered(s, nodes, k - 1);
        let i = nodes[k - 1].0 as int;
        t.with_node(i, NodeView { deps_log_id: -1i32, ..t.nodes[i] })
    }
}

/// What writing the live entries from the `k`-th on comes to.
pub open spec fn rewritten(old_log: DepsLogView, k: int, r: Recorded) -> Recorded
    decreases old_log.deps.len() - k,
{
    if 0 <= k < old_log.deps.len() {
        match old_log.deps[k] {
            None => rewritten(old_log, k + 1, r),
            Some(d) => if !is_live(r.state, old_log.nodes[k]) {
                rewritten(old_log, k + 1, r)
            } else {
                let n = deps_recorded(r.log, r.state, old_log.nodes[k], d);
                let m = Recorded { bytes: r.bytes + n.bytes, ..n };
                if n.error is Some {
                    m
                } else {
                    rewritten(old_log, k + 1, m)
                }
            },
        }
    } else {
        r
    }
}

/// What rewriting the log without dead entries comes to.
pub open spec fn recompacted(log: DepsLogView, s: StateView) -> Recorded {
    rewritten(
        log,
        0,
        Recorded {
            log: empty_log(),
            state: unnumbered(s, log.nodes, log.nodes.len() as int),
            bytes: header(),
            error: None,
        },
    )
}

/// Whether every output with dependencies is a node of the log.
pub open spec fn outputs_known(log: DepsLogView) -> bool {
    forall|i: int| 0 <= i < log.deps.len() && log.deps[i] is Some ==> i < log.nodes.len()
}

fn same_nodes(a: &[NodeId], b: &[NodeId]) -> (r: bool)
    ensures
        r == (a@ == b@),
{
    if a.len() != b.len() {
        return false;
    }
    let mut i: usize = 0;
    while i < a.len()
        invariant
            i <= a@.len() == b@.len(),
            forall|k: int| 0 <= k < i ==> a@[k] == b@[k],
        decreases a@.len() - i,
    {
        if a[i].0 != b[i].0 {
            return false;
        }
        i += 1;
    }
    assert(a@ =~= b@);
    true
}

fn copied(v: &[NodeId]) -> (r: Vec<NodeId>)
    ensures
        r@ == v@,
{
    let mut r: Vec<NodeId> = Vec::new();
    let mut i: usize = 0;
    while i < v.len()
        invariant
            i <= v@.len(),
            r@ == v@.take(i as int),
        decreases v@.len() - i,
    {
        r.push(v[i]);
        i += 1;
        assert(v@.take(i as int) =~= v@.take(i - 1).push(v@[i - 1]));
    }
    assert(r@ =~= v@);
    r
}

fn push_ids(out: &mut Vec<u8>, state: &State, nodes: &[NodeId])
    requires
        nodes_below(nodes@, state@.nodes.len()),
    ensures
        final(out)@ == old(out)@ + id_words(state@, nodes@),
{
    let mut i: usize = 0;
    assert(out@ =~= old(out)@ + id_words(state@, nodes@.take(0)));
    while i < nodes.len()
        invariant
            i <= nodes@.len(),
            nodes_below(nodes@, state@.nodes.len()),
            out@ == old(out)@ + id_words(state@, nodes@.take(i as int)),
        decreases nodes@.len() - i,
    {
        push_word(out, state.node(nodes[i]).deps_log_id as u32);
        i += 1;
        proof {
            let t = nodes@.take(i as int);
            assert(t.drop_last() =~= nodes@.take(i - 1));
            assert(out@ =~= old(out)@ + id_words(state@, t));
        }
    }
    assert(nodes@.take(i as int) =~= nodes@);
}

impl DepsLog {
    spec fn writing(&self, s: StateView, bytes: Seq<u8>, grown: bool) -> Writing {
        Writing { state: s, nodes: self@.nodes, bytes, grown }
    }

    fn record_id(
        &mut self,
        state: &mut State,
        node: NodeId,
        out: &mut Vec<u8>,
        grown: &mut bool,
    ) -> (r: Result<(), Error>)
        requires
            old(state).wf(),
            old(self)@.fits(old(state)@.nodes.len()),
            node.0 < old(state)@.nodes.len(),
        ensures
            final(state).wf(),
            final(state)@.nodes.len() == old(state)@.nodes.len(),
            final(self)@.fits(final(state)@.nodes.len()),
            final(self)@.deps == old(self)@.deps,
            final(self)@.stale == old(self)@.stale,
            match (r, id_written(old(self).writing(old(state)@, old(out)@, *old(grown)), node)) {
                (Ok(_), Ok(w)) => final(self).writing(final(state)@, final(out)@, *final(grown))
                    == w,
                (Err(e), Err(m)) => {
                    &&& e@ == ErrorView::Build(m)
                    &&& final(self).writing(final(state)@, final(out)@, *final(grown)) == old(
                        self).writing(old(state)@, old(out)@, *old(grown))
                },
                _ => false,
            },
    {
        if state.node(node).deps_log_id >= 0 {
            return Ok(());
        }
        let path: String = state.node(node).path_shared();
        let bytes = path.as_str().as_bytes();
        let size: usize = bytes.len();
        let ghost n = encode_utf8(path@).len();
        assert(size == n);
        let fill: usize = (4 - size % 4) % 4;
        if size > MAX_RECORD_SIZE || size + fill + 4 > MAX_RECORD_SIZE {
            let mut m: String = "path '".to_owned();
            m.append(path.as_str());
            m.append("' is too long for the deps log");
            return Err(Error::Build(m));
        }
        let id: u32 = self.nodes.len() as u32;
        push_word(out, (size + fill + 4) as u32);
        push_range(out, bytes, 0, size);
        push_repeated(out, 0, fill);
        push_word(out, 0xffff_ffff - id);
        proof {
            assert(bytes@.subrange(0, size as int) =~= encode_utf8(path@));
            assert(out@ =~= old(out)@ + path_record(path@, id));
            state.lemma_wf();
        }
        let ghost s1 = state@;
        let ghost log1 = self@;
        state.node_mut(node).deps_log_id = id as i32;
        proof {
            assert(state@ == numbered(s1, node, self@.nodes.len()));
            lemma_node_update(s1, node.0 as int, state@.nodes[node.0 as int]);
        }
        self.nodes.push(node);
        *grown = true;
        proof {
            assert(self@.deps == log1.deps);
            assert forall|k: int| 0 <= k < self@.deps.len() implies deps_fit(
                #[trigger] self@.deps[k],
                state@.nodes.len(),
            ) by {
                assert(deps_fit(log1.deps[k], s1.nodes.len()));
            }
        }
        Ok(())
    }

    fn record_ids(
        &mut self,
        state: &mut State,
        ids: &[NodeId],
        out: &mut Vec<u8>,
        grown: &mut bool,
    ) -> (r: Result<(), Error>)
        requires
            old(state).wf(),
            old(self)@.fits(old(state)@.nodes.len()),
            nodes_below(ids@, old(state)@.nodes.len()),
        ensures
            final(state).wf(),
            final(state)@.nodes.len() == old(state)@.nodes.len(),
            final(self)@.fits(final(state)@.nodes.len()),
            final(self)@.deps == old(self)@.deps,
            final(self)@.stale == old(self)@.stale,
            ({
                let w = ids_written(old(self).writing(old(state)@, old(out)@, *old(grown)), ids@, 0);
                &&& final(self).writing(final(state)@, final(out)@, *final(grown)) == w.0
                &&& match (r, w.1) {
                    (Ok(_), None) => true,
                    (Err(e), Some(m)) => e@ == ErrorView::Build(m),
                    _ => false,
                }
            }),
    {
        let ghost count = state@.nodes.len();
        let ghost want = ids_written(self.writing(state@, out@, *grown), ids@, 0);
        let mut k: usize = 0;
        while k < ids.len()
            invariant
                k <= ids@.len(),
                state.wf(),
                state@.nodes.len() == count == old(state)@.nodes.len(),
                self@.fits(count),
                self@.deps == old(self)@.deps,
                self@.stale == old(self)@.stale,
                nodes_below(ids@, count),
                want == ids_written(
                    old(self).writing(old(state)@, old(out)@, *old(grown)),
                    ids@,
                    0,
                ),
                ids_written(self.writing(state@, out@, *grown), ids@, k as int) == want,
            decreases ids@.len() - k,
        {
            match self.record_id(state, ids[k], out, grown) {
                Ok(_) => {},
                Err(e) => {
                    return Err(e);
                },
            }
            k += 1;
        }
        Ok(())
    }

    /// Record the dependencies of `node`, and append to `out` the bytes to
    /// append to the file.
    ///
    /// Nothing is written when the information is unchanged.
    #[verifier::rlimit(40)]
    pub fn record_deps(
        &mut self,
        state: &mut State,
        node: NodeId,
        mtime: i64,
        nodes: &[NodeId],
        out: &mut Vec<u8>,
    ) -> (r: Result<(), Error>)
        requires
            old(state).wf(),
            old(self)@.fits(old(state)@.nodes.len()),
            node.0 < old(state)@.nodes.len(),
            nodes_below(nodes@, old(state)@.nodes.len()),
        ensures
            final(state).wf(),
            final(state)@.nodes.len() == old(state)@.nodes.len(),
            final(self)@.fits(final(state)@.nodes.len()),
            ({
                let w = deps_recorded(
                    old(self)@,
                    old(state)@,
                    node,
                    DepsView { mtime, nodes: nodes@ },
                );
                &&& final(self)@ == w.log
                &&& final(state)@ == w.state
                &&& final(out)@ == old(out)@ + w.bytes
                &&& match (r, w.error) {
                    (Ok(_), None) => true,
                    (Err(e), Some(m)) => e@ == ErrorView::Build(m),
                    _ => false,
                }
            }),
    {
        let ghost log0 = self@;
        let ghost s0 = state@;
        let ghost d = DepsView { mtime, nodes: nodes@ };
        let mut all: Vec<NodeId> = Vec::new();
        all.push(node);
        let mut rest = copied(nodes);
        all.append(&mut rest);
        assert(all@ =~= seq![node] + nodes@);
        let mut bytes: Vec<u8> = Vec::new();
        assert(bytes@ =~= Seq::empty());
        let mut grown: bool = false;
        let written = self.record_ids(state, all.as_slice(), &mut bytes, &mut grown);
        push_range(out, bytes.as_slice(), 0, bytes.len());
        assert(bytes@.subrange(0, bytes@.len() as int) =~= bytes@);
        match written {
            Ok(_) => {},
            Err(e) => {
                assert(self@ =~= deps_recorded(log0, s0, node, d).log);
                return Err(e);
            },
        }
        if !grown {
            let same: bool = match self.get_deps(state, node) {
                Some(old_deps) => old_deps.mtime == mtime && same_nodes(
                    old_deps.nodes.as_slice(),
                    nodes,
                ),
                None => false,
            };
            proof {
                lemma_not_grown(
                    Writing { state: s0, nodes: log0.nodes, bytes: Seq::empty(), grown: false },
                    all@,
                    0,
                );
                assert(same == (log0.deps_of(s0, node) == Some(d)));
            }
            if same {
                assert(self@ =~= deps_recorded(log0, s0, node, d).log);
                return Ok(());
            }
        }
        if nodes.len() > MAX_RECORD_SIZE || 4 * (3 + nodes.len()) > MAX_RECORD_SIZE {
            let mut m: String = "deps record for '".to_owned();
            m.append(state.node(node).path());
            m.append("' is too large");
            assert(self@ =~= deps_recorded(log0, s0, node, d).log);
            return Err(Error::Build(m));
        }
        let ghost out1 = out@;
        let id: u32 = state.node(node).deps_log_id as u32;
        let stamp: u64 = to_unsigned(mtime);
        push_word(out, (4 * (3 + nodes.len())) as u32 + 0x8000_0000);
        push_word(out, id);
        push_word(out, (stamp % 0x1_0000_0000) as u32);
        push_word(out, (stamp / 0x1_0000_0000) as u32);
        push_ids(out, state, nodes);
        assert(out@ =~= out1 + deps_record(state@, node, d));
        self.update_deps(id as usize, Deps { mtime, nodes: copied(nodes) });
        proof {
            let w = deps_recorded(log0, s0, node, d);
            assert(self@ =~= w.log);
            assert(out@ =~= old(out)@ + w.bytes);
            assert forall|k: int| 0 <= k < self@.deps.len() implies deps_fit(
                #[trigger] self@.deps[k],
                state@.nodes.len(),
            ) by {
                if k == id {
                } else if k < log0.deps.len() {
                    assert(deps_fit(log0.deps[k], s0.nodes.len()));
                }
            }
        }
        Ok(())
    }
}

proof fn lemma_not_grown(w: Writing, nodes: Seq<NodeId>, k: int)
    requires
        0 <= k,
    ensures
        w.grown ==> ids_written(w, nodes, k).0.grown,
        !ids_written(w, nodes, k).0.grown ==> ids_written(w, nodes, k).0 == w,
    decreases nodes.len() - k,
{
    if k < nodes.len() {
        match id_written(w, nodes[k]) {
            Ok(n) => {
                lemma_not_grown(n, nodes, k + 1);
            },
            Err(_) => {},
        }
    }
}

impl DepsLog {
    fn forget_ids(&self, state: &mut State)
        requires
            old(state).wf(),
            nodes_below(self@.nodes, old(state)@.nodes.len()),
        ensures
            final(state).wf(),
            final(state)@.nodes.len() == old(state)@.nodes.len(),
            final(state)@.edges == old(state)@.edges,
            final(state)@ == unnumbered(old(state)@, self@.nodes, self@.nodes.len() as int),
    {
        let mut k: usize = 0;
        while k < self.nodes.len()
            invariant
                k <= self.nodes@.len(),
                state.wf(),
                state@.nodes.len() == old(state)@.nodes.len(),
                state@.edges == old(state)@.edges,
                nodes_below(self@.nodes, state@.nodes.len()),
                state@ == unnumbered(old(state)@, self@.nodes, k as int),
            decreases self.nodes@.len() - k,
        {
            let node = self.nodes[k];
            assert(node == self@.nodes[k as int]);
            let ghost s1 = state@;
            proof {
                state.lemma_wf();
            }
            state.node_mut(node).deps_log_id = -1;
            proof {
                lemma_node_update(s1, node.0 as int, state@.nodes[node.0 as int]);
            }
            k += 1;
        }
    }

    /// True if every output with dependencies is a node of the log, so that it
    /// can be rewritten.
    pub fn knows_outputs(&self) -> (r: bool)
        ensures
            r == outputs_known(self@),
    {
        let mut k: usize = self.nodes.len();
        while k < self.deps.len()
            invariant
                self.nodes@.len() <= k,
                forall|i: int| self.nodes@.len() <= i < k && i < self.deps@.len() ==> (
                #[trigger] self@.deps[i]) is None,
            decreases self.deps@.len() - k,
        {
            assert(self@.deps[k as int] == deps_views(self.deps@)[k as int]);
            if self.deps[k].is_some() {
                return false;
            }
            k += 1;
        }
        true
    }

    /// Drop dead entries, renumber all ids, and return the contents of the log
    /// file that is left.
    pub fn recompact(&mut self, state: &mut State) -> (r: Result<Vec<u8>, Error>)
        requires
            old(state).wf(),
            old(self)@.fits(old(state)@.nodes.len()),
            outputs_known(old(self)@),
        ensures
            final(state).wf(),
            final(state)@.nodes.len() == old(state)@.nodes.len(),
            final(state)@.edges == old(state)@.edges,
            final(self)@.fits(final(state)@.nodes.len()),
            ({
                let w = recompacted(old(self)@, old(state)@);
                &&& final(state)@ == w.state
                &&& match (r, w.error) {
                    (Ok(b), None) => b@ == w.bytes && final(self)@ == w.log,
                    (Err(e), Some(m)) => e@ == ErrorView::Build(m) && final(self)@ == old(self)@,
                    _ => false,
                }
            }),
    {
        let ghost log0 = self@;
        let ghost want = recompacted(self@, state@);
        let ghost count = state@.nodes.len();
        let mut out = header_bytes();
        let mut new_log = DepsLog::new();
        self.forget_ids(state);
        let mut k: usize = 0;
        while k < self.deps.len()
            invariant
                k <= self.deps@.len(),
                *self == *old(self),
                log0 == self@,
                state.wf(),
                state@.nodes.len() == count == old(state)@.nodes.len(),
                state@.edges == old(state)@.edges,
                log0.fits(count),
                outputs_known(log0),
                new_log@.fits(count),
                want == recompacted(log0, old(state)@),
                rewritten(
                    log0,
                    k as int,
                    Recorded { log: new_log@, state: state@, bytes: out@, error: None },
                ) == want,
            decreases self.deps@.len() - k,
        {
            assert(self@.deps[k as int] == deps_views(self.deps@)[k as int]);
            assert(deps_fit(log0.deps[k as int], count));
            match &self.deps[k] {
                None => {},
                Some(d) => {
                    let node = self.nodes[k];
                    assert(node == log0.nodes[k as int]);
                    if DepsLog::is_deps_entry_live_for(state, node) {
                        let ghost dv = DepsView { mtime: d.mtime, nodes: d.nodes@ };
                        assert(dv == d@);
                        proof {
                            lemma_recorded_edges(new_log@, state@, node, dv);
                        }
                        match new_log.record_deps(state, node, d.mtime, d.nodes.as_slice(), &mut out) {
                            Ok(_) => {},
                            Err(e) => {
                                return Err(e);
                            },
                        }
                    }
                },
            }
            k += 1;
        }
        self.nodes = new_log.nodes;
        self.deps = new_log.deps;
        self.needs_recompaction = new_log.needs_recompaction;
        Ok(out)
    }
}

/// Whether the dependencies of `node` still matter: an edge makes it that
/// has a `deps` attribute.
pub open spec fn is_live(s: StateView, node: NodeId) -> bool {
    match s.nodes[node.0 as int].in_edge {
        Some(e) => s.binding(e.0 as int, "deps"@, Escape::Shell).len() > 0,
        None => false,
    }
}

fn holds(v: &[NodeId], x: NodeId) -> (r: bool)
    ensures
        r == v@.contains(x),
{
    let mut i: usize = 0;
    while i < v.len()
        invariant
            i <= v@.len(),
            forall|k: int| 0 <= k < i ==> v@[k] != x,
        decreases v@.len() - i,
    {
        if v[i].0 == x.0 {
            assert(v@[i as int] == x);
            return true;
        }
        i += 1;
    }
    false
}

proof fn lemma_unnamed(nodes: Seq<NodeId>, c: Seq<u8>, p: int, i: nat, n: nat)
    requires
        i <= n,
        named_nodes(nodes, c, p, i) is None,
    ensures
        named_nodes(nodes, c, p, n) is None,
    decreases n - i,
{
    if i < n {
        lemma_unnamed(nodes, c, p, i, (n - 1) as nat);
    }
}

proof fn lemma_fits_grown(log: DepsLogView, m: nat, n: nat)
    requires
        log.fits(m),
        m <= n,
    ensures
        log.fits(n),
{
    assert forall|i: int| 0 <= i < log.deps.len() implies deps_fit(#[trigger] log.deps[i], n) by {
        assert(deps_fit(log.deps[i], m));
    }
}

/// Whether the ids that nodes carry are their places in the log.
pub open spec fn ids_agree(nodes: Seq<NodeId>, s: StateView) -> bool {
    &&& nodes.len() <= i32::MAX
    &&& nodes_below(nodes, s.nodes.len())
    &&& forall|i: int|
        0 <= i < nodes.len() ==> s.nodes[(#[trigger] nodes[i]).0 as int].deps_log_id == i
    &&& forall|n: int|
        0 <= n < s.nodes.len() && (#[trigger] s.nodes[n]).deps_log_id >= 0 ==> s.nodes[n].deps_log_id
            < nodes.len() && nodes[s.nodes[n].deps_log_id as int].0 == n
}

/// Whether two lists of nodes name the same paths.
pub open spec fn same_paths(a: Seq<NodeId>, s: StateView, b: Seq<NodeId>, t: StateView) -> bool {
    &&& a.len() == b.len()
    &&& forall|i: int| 0 <= i < a.len() ==> path_of(s, #[trigger] a[i]) == path_of(t, b[i])
}

/// Whether two records of dependencies say the same.
pub open spec fn same_deps(
    a: Option<DepsView>,
    s: StateView,
    b: Option<DepsView>,
    t: StateView,
) -> bool {
    match (a, b) {
        (Some(x), Some(y)) => x.mtime == y.mtime && same_paths(x.nodes, s, y.nodes, t),
        (None, None) => true,
        _ => false,
    }
}

/// Whether two logs, each over its own graph, say the same.
pub open spec fn same_log(
    a_nodes: Seq<NodeId>,
    a_deps: Seq<Option<DepsView>>,
    s: StateView,
    b_nodes: Seq<NodeId>,
    b_deps: Seq<Option<DepsView>>,
    t: StateView,
) -> bool {
    &&& same_paths(a_nodes, s, b_nodes, t)
    &&& a_deps.len() == b_deps.len()
    &&& forall|i: int|
        0 <= i < a_deps.len() ==> same_deps(#[trigger] a_deps[i], s, b_deps[i], t)
}

/// Whether loading `c` over the graph `t` gives a log that says what `log` does.
pub open spec fn loads_as(c: Seq<u8>, t: StateView, log: DepsLogView, s: StateView) -> bool {
    let (r, cut) = records_read(c, 16, reading_start(empty_log(), t));
    &&& declared_version(c) == CURRENT_VERSION
    &&& cut is None
    &&& r.state.wf()
    &&& r.state.nodes.len() <= t.nodes.len() + r.nodes.len()
    &&& ids_agree(r.nodes, r.state)
    &&& r.log().fits(r.state.nodes.len())
    &&& same_log(log.nodes, log.deps, s, r.nodes, r.deps, r.state)
}

/// Whether a path survives being written: it is not empty, and does not end in
/// the character that paths are padded with.
pub open spec fn is_recordable(path: Seq<char>) -> bool {
    path.len() > 0 && path.last() != '\0'
}

proof fn lemma_word(n: nat)
    requires
        n < 0x1_0000_0000,
    ensures
        word_at(word(n), 0) == n,
        word(n).len() == 4,
{
}

proof fn lemma_word_at(c: Seq<u8>, p: int, n: nat)
    requires
        n < 0x1_0000_0000,
        0 <= p,
        p + 4 <= c.len(),
        c.subrange(p, p + 4) == word(n),
    ensures
        word_at(c, p) == n,
{
    lemma_word(n);
    let w = c.subrange(p, p + 4);
    assert(w[0] == c[p] && w[1] == c[p + 1] && w[2] == c[p + 2] && w[3] == c[p + 3]);
}

proof fn lemma_records_appended(c: Seq<u8>, p: int, r: Reading, rec: Seq<u8>)
    requires
        0 <= p <= c.len(),
        records_read(c, p, r).1 is None,
    ensures
        records_read(c + rec, p, r) == records_read(c + rec, c.len() as int, records_read(
            c,
            p,
            r,
        ).0),
    decreases c.len() - p,
{
    let f = c + rec;
    if p + 4 <= c.len() {
        assert(f[p] == c[p] && f[p + 1] == c[p + 1] && f[p + 2] == c[p + 2] && f[p + 3] == c[p
            + 3]);
        let w = word_at(c, p);
        assert(word_at(f, p) == w);
        let size = (w % 0x8000_0000) as int;
        let body = p + 4;
        assert(f.subrange(body, body + size) =~= c.subrange(body, body + size));
        let b = c.subrange(body, body + size);
        let (n, valid) = if w >= 0x8000_0000 {
            deps_read(r, b)
        } else {
            path_read(r, b)
        };
        lemma_records_appended(c, body + size, n, rec);
    }
}

proof fn lemma_unpadded(b: Seq<u8>, n: int, k: nat, m: int)
    requires
        0 < m <= n <= b.len(),
        n - m <= k,
        b[m - 1] != 0,
        forall|i: int| m <= i < n ==> #[trigger] b[i] == 0,
    ensures
        unpadded(b, n, k) == m,
    decreases k,
{
    if n > m {
        lemma_unpadded(b, n - 1, (k - 1) as nat, m);
    }
}

proof fn lemma_path_body_read(b: Seq<u8>, r: Reading, path: Seq<char>)
    requires
        is_recordable(path),
        r.nodes.len() <= i32::MAX,
        r.state.interned(path, 0).nodes[r.state.id_of(path).0 as int].deps_log_id < 0,
        b == encode_utf8(path) + repeated(0u8, padding(encode_utf8(path).len()) as int) + word(
            (0xffff_ffff - r.nodes.len()) as nat,
        ),
    ensures
        path_read(r, b) == (
            Reading {
                state: numbered(
                    r.state.interned(path, 0),
                    r.state.id_of(path),
                    r.nodes.len(),
                ),
                nodes: r.nodes.push(r.state.id_of(path)),
                ..r
            },
            true,
        ),
{
    let e = encode_utf8(path);
    let n = e.len() as int;
    let fill = padding(n as nat) as int;
    let size = n + fill + 4;
    let sum = (0xffff_ffff - r.nodes.len()) as nat;
    assert(b.len() == size);
    lemma_encode_last(path);
    assert(b[n - 1] == e.last());
    assert forall|i: int| n <= i < size - 4 implies #[trigger] b[i] == 0 by {
        assert(b[i] == repeated(0u8, fill)[i - n]);
    }
    lemma_unpadded(b, size - 4, 3, n);
    assert(b.take(n) =~= e);
    encode_utf8_valid_utf8(path);
    encode_utf8_decode_utf8(path);
    assert(b.subrange(size - 4, size) =~= word(sum));
    lemma_word_at(b, size - 4, sum);
}

/// What a path record makes of what has been read.
#[verifier::rlimit(60)]
#[verifier::spinoff_prover]
proof fn lemma_path_record_read(a: Seq<u8>, r: Reading, path: Seq<char>)
    requires
        is_recordable(path),
        path_record_size(path) <= MAX_RECORD_SIZE,
        r.nodes.len() <= i32::MAX,
        r.state.interned(path, 0).nodes[r.state.id_of(path).0 as int].deps_log_id < 0,
    ensures
        ({
            let rec = path_record(path, r.nodes.len() as u32);
            let node = r.state.id_of(path);
            records_read(a + rec, a.len() as int, r) == (
                Reading {
                    state: numbered(r.state.interned(path, 0), node, r.nodes.len()),
                    nodes: r.nodes.push(node),
                    ..r
                },
                None::<int>,
            )
        }),
{
    let id = r.nodes.len() as u32;
    let rec = path_record(path, id);
    let c = a + rec;
    let p = a.len() as int;
    let e = encode_utf8(path);
    let fill = padding(e.len()) as int;
    let size = path_record_size(path) as int;
    let tail = e + repeated(0u8, fill) + word((0xffff_ffff - id) as nat);
    assert(rec =~= word(size as nat) + tail);
    assert(rec.len() == 4 + size);
    assert(c.subrange(p, p + 4) =~= word(size as nat));
    lemma_word_at(c, p, size as nat);
    let b = c.subrange(p + 4, p + 4 + size);
    assert(b =~= tail);
    lemma_path_body_read(b, r, path);
    assert(p + 4 + size == c.len());
    let q = path_read(r, b).0;
    assert(records_read(c, c.len() as int, q) == (q, None::<int>));
}

proof fn lemma_id_words_len(s: StateView, nodes: Seq<NodeId>)
    ensures
        id_words(s, nodes).len() == 4 * nodes.len(),
    decreases nodes.len(),
{
    if nodes.len() > 0 {
        lemma_id_words_len(s, nodes.drop_last());
    }
}

/// The words for nodes with ids are read as the nodes that have these ids.
proof fn lemma_named(
    s: StateView,
    nodes: Seq<NodeId>,
    log: Seq<NodeId>,
    b: Seq<u8>,
    p: int,
    ids: Seq<NodeId>,
)
    requires
        0 <= p,
        ids_agree(log, s),
        nodes_below(nodes, s.nodes.len()),
        forall|i: int|
            0 <= i < nodes.len() ==> s.nodes[(#[trigger] nodes[i]).0 as int].deps_log_id >= 0,
        p + 4 * nodes.len() <= b.len(),
        b.subrange(p, p + 4 * nodes.len()) == id_words(s, nodes),
        ids.len() == log.len(),
    ensures
        named_nodes(ids, b, p, nodes.len()) == Some(
            Seq::new(
                nodes.len(),
                |i: int| ids[s.nodes[nodes[i].0 as int].deps_log_id as int],
            ),
        ),
    decreases nodes.len(),
{
    let f = Seq::new(nodes.len(), |i: int| ids[s.nodes[nodes[i].0 as int].deps_log_id as int]);
    if nodes.len() == 0 {
        assert(f =~= Seq::empty());
    } else {
        let m = nodes.drop_last();
        lemma_id_words_len(s, m);
        let w = id_words(s, nodes);
        let q = p + 4 * m.len();
        assert forall|i: int| 0 <= i < m.len() implies s.nodes[(#[trigger] m[i]).0 as int].deps_log_id
            >= 0 by {
            assert(m[i] == nodes[i]);
        }
        assert(b.subrange(p, q) =~= id_words(s, m)) by {
            assert(b.subrange(p, q) =~= b.subrange(p, p + 4 * nodes.len()).take((4 * m.len()) as int));
            assert(w.take((4 * m.len()) as int) =~= id_words(s, m));
        }
        lemma_named(s, m, log, b, p, ids);
        let last = nodes.last();
        assert(last == nodes[nodes.len() - 1]);
        let id = s.nodes[last.0 as int].deps_log_id;
        assert(b.subrange(q, q + 4) =~= word((id as u32) as nat)) by {
            assert(b.subrange(q, q + 4) =~= b.subrange(p, p + 4 * nodes.len()).skip((4 * m.len()) as int));
            assert(w.skip((4 * m.len()) as int) =~= word((id as u32) as nat));
        }
        lemma_word_at(b, q, (id as u32) as nat);
        let g = Seq::new(m.len(), |i: int| ids[s.nodes[m[i].0 as int].deps_log_id as int]);
        assert(g.push(ids[id as int]) =~= f);
    }
}

proof fn lemma_mtime(m: i64)
    ensures
        unsigned(m) < 0x1_0000_0000_0000_0000,
        unsigned(m) / 0x1_0000_0000 < 0x1_0000_0000,
        mtime_of(unsigned(m) % 0x1_0000_0000, unsigned(m) / 0x1_0000_0000) == m,
{
}

proof fn lemma_deps_body_read(
    b: Seq<u8>,
    r: Reading,
    log: Seq<NodeId>,
    s: StateView,
    id: nat,
    d: DepsView,
)
    requires
        ids_agree(log, s),
        r.nodes.len() == log.len(),
        id < 0x1_0000_0000,
        nodes_below(d.nodes, s.nodes.len()),
        forall|i: int|
            0 <= i < d.nodes.len() ==> s.nodes[(#[trigger] d.nodes[i]).0 as int].deps_log_id >= 0,
        b == word(id) + word(unsigned(d.mtime) % 0x1_0000_0000) + word(
            unsigned(d.mtime) / 0x1_0000_0000,
        ) + id_words(s, d.nodes),
    ensures
        ({
            let v = DepsView {
                mtime: d.mtime,
                nodes: Seq::new(
                    d.nodes.len(),
                    |i: int| r.nodes[s.nodes[d.nodes[i].0 as int].deps_log_id as int],
                ),
            };
            let (n, valid) = deps_read(r, b);
            &&& valid
            &&& n.state == r.state
            &&& n.nodes == r.nodes
            &&& n.deps == with_deps(r.deps, id, v)
        }),
{
    let low = unsigned(d.mtime) % 0x1_0000_0000;
    let high = unsigned(d.mtime) / 0x1_0000_0000;
    let words = id_words(s, d.nodes);
    lemma_id_words_len(s, d.nodes);
    lemma_mtime(d.mtime);
    assert(b.subrange(0, 4) =~= word(id));
    assert(b.subrange(4, 8) =~= word(low));
    assert(b.subrange(8, 12) =~= word(high));
    assert(b.subrange(12, 12 + 4 * (d.nodes.len() as int)) =~= words);
    lemma_word_at(b, 0, id);
    lemma_word_at(b, 4, low);
    lemma_word_at(b, 8, high);
    lemma_named(s, d.nodes, log, b, 12, r.nodes);
    assert(b.len() / 4 - 3 == d.nodes.len());
}

/// What a deps record makes of what has been read.
#[verifier::rlimit(60)]
#[verifier::spinoff_prover]
proof fn lemma_deps_record_read(
    a: Seq<u8>,
    r: Reading,
    log: Seq<NodeId>,
    s: StateView,
    node: NodeId,
    d: DepsView,
)
    requires
        ids_agree(log, s),
        r.nodes.len() == log.len(),
        node.0 < s.nodes.len(),
        s.nodes[node.0 as int].deps_log_id >= 0,
        nodes_below(d.nodes, s.nodes.len()),
        forall|i: int|
            0 <= i < d.nodes.len() ==> s.nodes[(#[trigger] d.nodes[i]).0 as int].deps_log_id >= 0,
        deps_record_size(d.nodes.len()) <= MAX_RECORD_SIZE,
    ensures
        ({
            let rec = deps_record(s, node, d);
            let id = s.nodes[node.0 as int].deps_log_id as nat;
            let v = DepsView {
                mtime: d.mtime,
                nodes: Seq::new(
                    d.nodes.len(),
                    |i: int| r.nodes[s.nodes[d.nodes[i].0 as int].deps_log_id as int],
                ),
            };
            let (n, cut) = records_read(a + rec, a.len() as int, r);
            &&& cut is None
            &&& n.state == r.state
            &&& n.nodes == r.nodes
            &&& n.deps == with_deps(r.deps, id, v)
        }),
{
    let id = (s.nodes[node.0 as int].deps_log_id as u32) as nat;
    let rec = deps_record(s, node, d);
    let c = a + rec;
    let p = a.len() as int;
    let size = deps_record_size(d.nodes.len()) as int;
    let head = (size + 0x8000_0000) as nat;
    let low = unsigned(d.mtime) % 0x1_0000_0000;
    let high = unsigned(d.mtime) / 0x1_0000_0000;
    let words = id_words(s, d.nodes);
    lemma_id_words_len(s, d.nodes);
    let tail = word(id) + word(low) + word(high) + words;
    assert(rec =~= word(head) + tail);
    assert(rec.len() == 4 + size);
    assert(c.subrange(p, p + 4) =~= word(head));
    lemma_word_at(c, p, head);
    assert(head % 0x8000_0000 == size);
    let b = c.subrange(p + 4, p + 4 + size);
    assert(b =~= tail);
    lemma_deps_body_read(b, r, log, s, id, d);
    assert(p + 4 + size == c.len());
    let q = deps_read(r, b).0;
    assert(records_read(c, c.len() as int, q) == (q, None::<int>));
}

proof fn lemma_numbered(s: StateView, nodes: Seq<NodeId>, node: NodeId)
    requires
        s.wf(),
        ids_agree(nodes, s),
        nodes.len() < i32::MAX,
        node.0 < s.nodes.len(),
        s.nodes[node.0 as int].deps_log_id < 0,
    ensures
        numbered(s, node, nodes.len()).wf(),
        ids_agree(nodes.push(node), numbered(s, node, nodes.len())),
{
    let t = numbered(s, node, nodes.len());
    let all = nodes.push(node);
    lemma_node_update(s, node.0 as int, t.nodes[node.0 as int]);
    assert(id_at(nodes.len()) == nodes.len());
    assert forall|i: int| 0 <= i < all.len() implies t.nodes[(#[trigger] all[i]).0 as int].deps_log_id
        == i by {
        if i < nodes.len() {
            assert(all[i] == nodes[i]);
            assert(s.nodes[nodes[i].0 as int].deps_log_id == i);
        }
    }
    assert forall|n: int| 0 <= n < t.nodes.len() && (#[trigger] t.nodes[n]).deps_log_id >= 0 implies
        t.nodes[n].deps_log_id < all.len() && all[t.nodes[n].deps_log_id as int].0 == n by {
        if n != node.0 {
            assert(t.nodes[n] == s.nodes[n]);
        }
    }
}

/// Whether every path of the graph can be recorded.
pub open spec fn all_recordable(s: StateView) -> bool {
    forall|n: int| 0 <= n < s.nodes.len() ==> is_recordable((#[trigger] s.nodes[n]).path)
}

spec fn paths_kept(s: StateView, t: StateView) -> bool {
    &&& s.nodes.len() <= t.nodes.len()
    &&& forall|n: int| 0 <= n < s.nodes.len() ==> (#[trigger] t.nodes[n]).path == s.nodes[n].path
}

spec fn matched(w: Writing, r: Reading) -> bool {
    &&& w.state.wf()
    &&& ids_agree(w.nodes, w.state)
    &&& r.state.wf()
    &&& ids_agree(r.nodes, r.state)
    &&& same_paths(w.nodes, w.state, r.nodes, r.state)
}

proof fn lemma_ids_read(
    c: Seq<u8>,
    t: StateView,
    w: Writing,
    nodes: Seq<NodeId>,
    k: int,
)
    requires
        c.len() >= 16,
        0 <= k <= nodes.len(),
        ids_written(w, nodes, k).1 is None,
        ids_written(w, nodes, k).0.nodes.len() <= i32::MAX,
        t.nodes.len() + ids_written(w, nodes, k).0.nodes.len() <= usize::MAX,
        nodes_below(nodes, w.state.nodes.len()),
        all_recordable(w.state),
        ({
            let (r, cut) = records_read(c + w.bytes, 16, reading_start(empty_log(), t));
            &&& cut is None
            &&& matched(w, r)
            &&& r.state.nodes.len() <= t.nodes.len() + r.nodes.len()
        }),
    ensures
        ({
            let (r, cut) = records_read(c + w.bytes, 16, reading_start(empty_log(), t));
            let v = ids_written(w, nodes, k).0;
            let (q, cut2) = records_read(c + v.bytes, 16, reading_start(empty_log(), t));
            &&& cut2 is None
            &&& matched(v, q)
            &&& q.state.nodes.len() <= t.nodes.len() + q.nodes.len()
            &&& q.deps == r.deps
            &&& paths_kept(r.state, q.state)
            &&& w.state.nodes.len() == v.state.nodes.len()
            &&& paths_kept(w.state, v.state)
            &&& w.nodes.len() <= v.nodes.len()
            &&& forall|n: int|
                0 <= n < w.state.nodes.len() && (#[trigger] w.state.nodes[n]).deps_log_id >= 0
                    ==> v.state.nodes[n].deps_log_id == w.state.nodes[n].deps_log_id
            &&& forall|i: int|
                k <= i < nodes.len() ==> v.state.nodes[(#[trigger] nodes[i]).0 as int].deps_log_id
                    >= 0
        }),
    decreases nodes.len() - k,
{
    let start = reading_start(empty_log(), t);
    if k < nodes.len() {
        let node = nodes[k];
        let n = id_written(w, node)->Ok_0;
        lemma_log_grows(n, nodes, k + 1);
        if n != w {
            let path = w.state.nodes[node.0 as int].path;
            let r = records_read(c + w.bytes, 16, start).0;
            let rec = path_record(path, w.nodes.len() as u32);
            assert(is_recordable(path));
            assert(r.state.nodes.len() <= t.nodes.len() + r.nodes.len() < usize::MAX);
            law_interning(r.state, path, 0);
            let s2 = r.state.interned(path, 0);
            let node2 = r.state.id_of(path);
            lemma_node_index(r.state.nodes, path, 0);
            if s2.nodes[node2.0 as int].deps_log_id >= 0 {
                assert(node2.0 < r.state.nodes.len());
                let j = s2.nodes[node2.0 as int].deps_log_id as int;
                assert(r.state.nodes[node2.0 as int].deps_log_id == j);
                assert(r.nodes[j].0 == node2.0);
                assert(path_of(w.state, w.nodes[j]) == path_of(r.state, r.nodes[j]));
                assert(w.state.nodes[w.nodes[j].0 as int].deps_log_id == j);
                let a = w.nodes[j].0 as int;
                let b = node.0 as int;
                assert(w.state.nodes[a].path == w.state.nodes[b].path);
                assert(a == b);
            }
            assert(c + n.bytes =~= (c + w.bytes) + rec);
            lemma_records_appended(c + w.bytes, 16, start, rec);
            lemma_path_record_read(c + w.bytes, r, path);
            assert(ids_agree(r.nodes, s2)) by {
                assert forall|m: int|
                    0 <= m < s2.nodes.len() && (#[trigger] s2.nodes[m]).deps_log_id >= 0 implies
                    s2.nodes[m].deps_log_id < r.nodes.len() && r.nodes[s2.nodes[m].deps_log_id as int].0
                    == m by {
                    if m < r.state.nodes.len() {
                        assert(s2.nodes[m] == r.state.nodes[m]);
                    }
                }
                assert forall|i: int| 0 <= i < r.nodes.len() implies s2.nodes[(
                #[trigger] r.nodes[i]).0 as int].deps_log_id == i by {
                    assert(s2.nodes[r.nodes[i].0 as int] == r.state.nodes[r.nodes[i].0 as int]);
                }
            }
            lemma_numbered(s2, r.nodes, node2);
            lemma_numbered(w.state, w.nodes, node);
            let q = records_read(c + n.bytes, 16, start).0;
            assert(matched(n, q)) by {
                assert forall|i: int| 0 <= i < n.nodes.len() implies path_of(
                    n.state,
                    #[trigger] n.nodes[i],
                ) == path_of(q.state, q.nodes[i]) by {
                    if i < w.nodes.len() {
                        assert(path_of(w.state, w.nodes[i]) == path_of(r.state, r.nodes[i]));
                        assert(s2.nodes[r.nodes[i].0 as int] == r.state.nodes[r.nodes[i].0 as int]);
                    }
                }
            }
            assert(paths_kept(r.state, q.state));
            assert(all_recordable(n.state)) by {
                assert forall|m: int| 0 <= m < n.state.nodes.len() implies is_recordable(
                    (#[trigger] n.state.nodes[m]).path,
                ) by {
                    assert(is_recordable(w.state.nodes[m].path));
                }
            }
        }
        lemma_ids_read(c, t, n, nodes, k + 1);
        assert(n.state.nodes[node.0 as int].deps_log_id >= 0);
    }
}

proof fn lemma_log_grows(w: Writing, nodes: Seq<NodeId>, k: int)
    requires
        0 <= k,
    ensures
        w.nodes.len() <= ids_written(w, nodes, k).0.nodes.len(),
    decreases nodes.len() - k,
{
    if k < nodes.len() {
        match id_written(w, nodes[k]) {
            Ok(n) => {
                lemma_log_grows(n, nodes, k + 1);
            },
            Err(_) => {},
        }
    }
}

/// A log file that holds nothing but its header loads as the empty log.
pub proof fn law_header_loads_as_nothing(t: StateView, s: StateView)
    requires
        t.wf(),
        ids_agree(Seq::empty(), t),
    ensures
        loads_as(header(), t, empty_log(), s),
{
    let c = header();
    assert(c.take(12) =~= signature());
    assert(c.subrange(12, 16) =~= word(CURRENT_VERSION as nat));
    lemma_word_at(c, 12, CURRENT_VERSION as nat);
    assert(c.len() == 16);
}

/// What was recorded is read back: appending the bytes of a record to a file
/// that loads as the log gives one that loads as the log with the record.
pub proof fn law_recorded_deps_read_back(
    c: Seq<u8>,
    t: StateView,
    log: DepsLogView,
    s: StateView,
    node: NodeId,
    d: DepsView,
)
    requires
        s.wf(),
        ids_agree(log.nodes, s),
        log.fits(s.nodes.len()),
        all_recordable(s),
        loads_as(c, t, log, s),
        node.0 < s.nodes.len(),
        nodes_below(d.nodes, s.nodes.len()),
        deps_recorded(log, s, node, d).error is None,
        deps_recorded(log, s, node, d).log.nodes.len() <= i32::MAX,
        t.nodes.len() + deps_recorded(log, s, node, d).log.nodes.len() <= usize::MAX,
    ensures
        ({
            let w = deps_recorded(log, s, node, d);
            &&& loads_as(c + w.bytes, t, w.log, w.state)
            &&& ids_agree(w.log.nodes, w.state)
            &&& w.log.deps_of(w.state, node) == Some(d)
        }),
{
    let start = reading_start(empty_log(), t);
    let all = seq![node] + d.nodes;
    let w0 = Writing { state: s, nodes: log.nodes, bytes: Seq::empty(), grown: false };
    let (w, error) = ids_written(w0, all, 0);
    let done = deps_recorded(log, s, node, d);
    let r = records_read(c, 16, start).0;
    assert(c + w0.bytes =~= c);
    assert forall|k: int| 0 <= k < all.len() implies (#[trigger] all[k]).0 < s.nodes.len() by {
        if k > 0 {
            assert(all[k] == d.nodes[k - 1]);
        }
    }
    lemma_ids_read(c, t, w0, all, 0);
    let q = records_read(c + w.bytes, 16, start).0;
    let a = c + w.bytes;
    assert(all[0] == node);
    let id = w.state.nodes[node.0 as int].deps_log_id as int;
    assert(id >= 0);
    lemma_header_kept(c, done.bytes);
    lemma_entries_kept(log, s, w.state, r, q);
    if !w.grown && log.deps_of(s, node) == Some(d) {
        lemma_not_grown(w0, all, 0);
        assert(w == w0);
        assert(done.bytes =~= w.bytes);
        lemma_fits_later(q, r);
    } else {
        let rec = deps_record(w.state, node, d);
        assert forall|i: int| 0 <= i < d.nodes.len() implies w.state.nodes[(
        #[trigger] d.nodes[i]).0 as int].deps_log_id >= 0 by {
            assert(all[i + 1] == d.nodes[i]);
        }
        lemma_records_appended(a, 16, start, rec);
        lemma_deps_record_read(a, q, w.nodes, w.state, node, d);
        assert(c + done.bytes =~= a + rec);
        let z = records_read(a + rec, 16, start).0;
        let v = DepsView {
            mtime: d.mtime,
            nodes: Seq::new(
                d.nodes.len(),
                |i: int| q.nodes[w.state.nodes[d.nodes[i].0 as int].deps_log_id as int],
            ),
        };
        assert(z.deps == with_deps(q.deps, id as nat, v));
        assert(same_paths(d.nodes, w.state, v.nodes, z.state)) by {
            assert forall|i: int| 0 <= i < d.nodes.len() implies path_of(
                w.state,
                #[trigger] d.nodes[i],
            ) == path_of(z.state, v.nodes[i]) by {
                let j = w.state.nodes[d.nodes[i].0 as int].deps_log_id as int;
                assert(w.nodes[j].0 == d.nodes[i].0);
                assert(path_of(w.state, w.nodes[j]) == path_of(q.state, q.nodes[j]));
            }
        }
        assert forall|i: int| 0 <= i < done.log.deps.len() implies same_deps(
            #[trigger] done.log.deps[i],
            w.state,
            z.deps[i],
            z.state,
        ) by {
            if i != id && i < log.deps.len() {
                assert(same_deps(log.deps[i], w.state, q.deps[i], q.state));
            }
        }
        lemma_fits_later(q, r);
        assert(nodes_below(v.nodes, z.state.nodes.len())) by {
            assert forall|i: int| 0 <= i < v.nodes.len() implies (#[trigger] v.nodes[i]).0
                < z.state.nodes.len() by {
                let j = w.state.nodes[d.nodes[i].0 as int].deps_log_id as int;
                assert(w.nodes[j].0 == d.nodes[i].0);
                assert(q.nodes[j].0 < q.state.nodes.len());
            }
        }
        let zl = z.log();
        let ql = q.log();
        assert forall|i: int| 0 <= i < zl.deps.len() implies deps_fit(
            #[trigger] zl.deps[i],
            z.state.nodes.len(),
        ) by {
            if i != id && i < ql.deps.len() {
                assert(deps_fit(ql.deps[i], q.state.nodes.len()));
            }
        }
    }
}

proof fn lemma_header_kept(c: Seq<u8>, b: Seq<u8>)
    requires
        has_header(c),
    ensures
        declared_version(c + b) == declared_version(c),
{
    assert((c + b).take(12) =~= c.take(12));
}

proof fn lemma_entries_kept(log: DepsLogView, s: StateView, s2: StateView, r: Reading, q: Reading)
    requires
        log.fits(s.nodes.len()),
        paths_kept(s, s2),
        paths_kept(r.state, q.state),
        q.deps == r.deps,
        r.log().fits(r.state.nodes.len()),
        same_log(log.nodes, log.deps, s, r.nodes, r.deps, r.state),
    ensures
        forall|i: int|
            0 <= i < log.deps.len() ==> same_deps(#[trigger] log.deps[i], s2, q.deps[i], q.state),
{
    let rl = r.log();
    assert forall|i: int| 0 <= i < log.deps.len() implies same_deps(
        #[trigger] log.deps[i],
        s2,
        q.deps[i],
        q.state,
    ) by {
        assert(same_deps(log.deps[i], s, r.deps[i], r.state));
        assert(deps_fit(log.deps[i], s.nodes.len()));
        assert(deps_fit(rl.deps[i], r.state.nodes.len()));
        if log.deps[i] is Some {
            let x = log.deps[i]->0;
            let y = r.deps[i]->0;
            assert forall|k: int| 0 <= k < x.nodes.len() implies path_of(s2, #[trigger] x.nodes[k])
                == path_of(q.state, y.nodes[k]) by {
                assert(path_of(s, x.nodes[k]) == path_of(r.state, y.nodes[k]));
                assert(s2.nodes[x.nodes[k].0 as int].path == s.nodes[x.nodes[k].0 as int].path);
                assert(q.state.nodes[y.nodes[k].0 as int].path == r.state.nodes[y.nodes[k].0
                    as int].path);
            }
        }
    }
}

proof fn lemma_fits_later(q: Reading, r: Reading)
    requires
        paths_kept(r.state, q.state),
        q.deps == r.deps,
        nodes_below(q.nodes, q.state.nodes.len()),
        r.log().fits(r.state.nodes.len()),
    ensures
        q.log().fits(q.state.nodes.len()),
{
    let rl = r.log();
    let ql = q.log();
    assert forall|i: int| 0 <= i < ql.deps.len() implies deps_fit(
        #[trigger] ql.deps[i],
        q.state.nodes.len(),
    ) by {
        assert(deps_fit(rl.deps[i], r.state.nodes.len()));
    }
}

/// Whether bytes are the start of a record and no more: not all of its head, or
/// not all of what its head announces.
pub open spec fn is_incomplete(part: Seq<u8>) -> bool {
    0 < part.len() < 4 || (part.len() >= 4 && 4 + word_at(part, 0) % 0x8000_0000 > part.len())
}

/// A log whose last record is incomplete loads as the log without that record,
/// and the file is cut down to what loads in full.
pub proof fn law_incomplete_records_are_cut_off(
    log: DepsLogView,
    s: StateView,
    c: Seq<u8>,
    part: Seq<u8>,
)
    requires
        load_repair(log, s, Some(c)) == Repair::Keep,
        is_incomplete(part),
        c.len() <= usize::MAX,
    ensures
        load_repair(log, s, Some(c + part)) == Repair::Truncate(c.len() as usize),
        loaded(log, s, Some(c + part)).1 == loaded(log, s, Some(c)).1,
        loaded(log, s, Some(c + part)).0.nodes == loaded(log, s, Some(c)).0.nodes,
        loaded(log, s, Some(c + part)).0.deps == loaded(log, s, Some(c)).0.deps,
{
    let start = reading_start(log, s);
    let f = c + part;
    lemma_header_kept(c, part);
    lemma_records_appended(c, 16, start, part);
    let n = c.len() as int;
    if part.len() >= 4 {
        assert(f[n] == part[0] && f[n + 1] == part[1] && f[n + 2] == part[2] && f[n + 3] == part[3]);
        assert(word_at(f, n) == word_at(part, 0));
    }
}

/// Recording what is already recorded writes nothing and changes nothing.
pub proof fn law_unchanged_deps_are_not_written(
    log: DepsLogView,
    s: StateView,
    node: NodeId,
    d: DepsView,
)
    requires
        log.deps_of(s, node) == Some(d),
        s.nodes[node.0 as int].deps_log_id >= 0,
        forall|i: int|
            0 <= i < d.nodes.len() ==> s.nodes[(#[trigger] d.nodes[i]).0 as int].deps_log_id >= 0,
    ensures
        deps_recorded(log, s, node, d) == (Recorded {
            log,
            state: s,
            bytes: Seq::empty(),
            error: None,
        }),
{
    let w = Writing { state: s, nodes: log.nodes, bytes: Seq::empty(), grown: false };
    let all = seq![node] + d.nodes;
    assert forall|i: int| 0 <= i < all.len() implies s.nodes[(
    #[trigger] all[i]).0 as int].deps_log_id >= 0 by {
        if i > 0 {
            assert(all[i] == d.nodes[i - 1]);
        }
    }
    lemma_nothing_to_write(w, all, 0);
    assert(DepsLogView { nodes: w.nodes, ..log } =~= log);
}

proof fn lemma_nothing_to_write(w: Writing, nodes: Seq<NodeId>, k: int)
    requires
        0 <= k,
        forall|i: int|
            k <= i < nodes.len() ==> w.state.nodes[(#[trigger] nodes[i]).0 as int].deps_log_id >= 0,
    ensures
        ids_written(w, nodes, k) == (w, None::<Seq<char>>),
    decreases nodes.len() - k,
{
    if k < nodes.len() {
        assert(w.state.nodes[nodes[k].0 as int].deps_log_id >= 0);
        lemma_nothing_to_write(w, nodes, k + 1);
    }
}

/// Whether nothing but the ids of nodes in the log tells two graphs apart.
pub open spec fn same_but_ids(s: StateView, t: StateView) -> bool {
    &&& t.edges == s.edges
    &&& t.scopes == s.scopes
    &&& t.nodes.len() == s.nodes.len()
    &&& forall|n: int|
        0 <= n < s.nodes.len() ==> (#[trigger] t.nodes[n]) == (NodeView {
            deps_log_id: t.nodes[n].deps_log_id,
            ..s.nodes[n]
        })
}

proof fn lemma_same_but_ids_twice(s: StateView, t: StateView, u: StateView)
    requires
        same_but_ids(s, t),
        same_but_ids(t, u),
    ensures
        same_but_ids(s, u),
{
    assert forall|n: int| 0 <= n < s.nodes.len() implies (#[trigger] u.nodes[n]) == (NodeView {
        deps_log_id: u.nodes[n].deps_log_id,
        ..s.nodes[n]
    }) by {
        assert(t.nodes[n] == (NodeView { deps_log_id: t.nodes[n].deps_log_id, ..s.nodes[n] }));
    }
}

proof fn lemma_same_liveness(s: StateView, t: StateView, node: NodeId)
    requires
        s.wf(),
        same_but_ids(s, t),
        node.0 < s.nodes.len(),
    ensures
        is_live(t, node) == is_live(s, node),
{
    let n = s.nodes[node.0 as int];
    assert(s.node_ok(n));
    assert(t.nodes[node.0 as int].in_edge == n.in_edge);
    if n.in_edge is Some {
        let e = (n.in_edge->0).0 as int;
        assert(s.edge_ok(s.edges[e]));
        assert(says_same(s, t, e));
        law_bindings_are_fixed(s, t, e, "deps"@, Escape::Shell);
    }
}

proof fn lemma_ids_written(w: Writing, nodes: Seq<NodeId>, k: int)
    requires
        0 <= k,
        w.state.wf(),
        ids_agree(w.nodes, w.state),
        nodes_below(nodes, w.state.nodes.len()),
        ids_written(w, nodes, k).1 is None,
        ids_written(w, nodes, k).0.nodes.len() <= i32::MAX,
    ensures
        ({
            let v = ids_written(w, nodes, k).0;
            &&& v.state.wf()
            &&& ids_agree(v.nodes, v.state)
            &&& same_but_ids(w.state, v.state)
            &&& w.nodes.len() <= v.nodes.len()
            &&& forall|i: int| 0 <= i < w.nodes.len() ==> #[trigger] v.nodes[i] == w.nodes[i]
            &&& forall|i: int|
                k <= i < nodes.len() ==> v.state.nodes[(#[trigger] nodes[i]).0 as int].deps_log_id
                    >= 0
        }),
    decreases nodes.len() - k,
{
    if k < nodes.len() {
        let n = id_written(w, nodes[k])->Ok_0;
        lemma_log_grows(n, nodes, k + 1);
        if n != w {
            lemma_numbered(w.state, w.nodes, nodes[k]);
        }
        lemma_ids_written(n, nodes, k + 1);
        let v = ids_written(n, nodes, k + 1).0;
        lemma_same_but_ids_twice(w.state, n.state, v.state);
        let id = n.state.nodes[nodes[k].0 as int].deps_log_id as int;
        assert(n.nodes[id].0 == nodes[k].0);
        assert(v.nodes[id] == n.nodes[id]);
        assert(v.state.nodes[v.nodes[id].0 as int].deps_log_id == id);
        assert forall|i: int| 0 <= i < w.nodes.len() implies #[trigger] v.nodes[i] == w.nodes[i] by {
            assert(n.nodes[i] == w.nodes[i]);
        }
    }
}

/// Recording the dependencies of one output leaves those of all others as they
/// are.
pub proof fn law_recording_keeps_other_deps(
    log: DepsLogView,
    s: StateView,
    node: NodeId,
    d: DepsView,
    other: NodeId,
)
    requires
        s.wf(),
        ids_agree(log.nodes, s),
        log.deps.len() <= log.nodes.len(),
        node.0 < s.nodes.len(),
        other.0 < s.nodes.len(),
        other != node,
        nodes_below(d.nodes, s.nodes.len()),
        deps_recorded(log, s, node, d).error is None,
        deps_recorded(log, s, node, d).log.nodes.len() <= i32::MAX,
    ensures
        ({
            let w = deps_recorded(log, s, node, d);
            w.log.deps_of(w.state, other) == log.deps_of(s, other)
        }),
{
    lemma_recorded(log, s, node, d);
    let w = deps_recorded(log, s, node, d);
    let a = s.nodes[other.0 as int].deps_log_id as int;
    let b = w.state.nodes[other.0 as int].deps_log_id as int;
    let id = w.state.nodes[node.0 as int].deps_log_id as int;
    if a >= 0 {
        assert(log.nodes[a].0 == other.0);
        assert(w.log.nodes[a] == log.nodes[a]);
        assert(w.state.nodes[w.log.nodes[a].0 as int].deps_log_id == a);
    } else if b >= 0 {
        assert(w.log.nodes[b].0 == other.0);
        if b < log.nodes.len() {
            assert(w.log.nodes[b] == log.nodes[b]);
            assert(s.nodes[log.nodes[b].0 as int].deps_log_id == b);
        }
    }
    if b >= 0 {
        assert(w.log.nodes[b].0 == other.0);
        assert(w.log.nodes[id].0 == node.0);
        assert(b != id);
    }
}

/// What recording dependencies keeps, and what it adds.
pub proof fn lemma_recorded(log: DepsLogView, s: StateView, node: NodeId, d: DepsView)
    requires
        s.wf(),
        ids_agree(log.nodes, s),
        log.deps.len() <= log.nodes.len(),
        node.0 < s.nodes.len(),
        nodes_below(d.nodes, s.nodes.len()),
        deps_recorded(log, s, node, d).error is None,
        deps_recorded(log, s, node, d).log.nodes.len() <= i32::MAX,
    ensures
        ({
            let w = deps_recorded(log, s, node, d);
            let id = w.state.nodes[node.0 as int].deps_log_id as int;
            &&& w.state.wf()
            &&& ids_agree(w.log.nodes, w.state)
            &&& same_but_ids(s, w.state)
            &&& log.nodes.len() <= w.log.nodes.len()
            &&& forall|i: int| 0 <= i < log.nodes.len() ==> #[trigger] w.log.nodes[i] == log.nodes[i]
            &&& 0 <= id < w.log.nodes.len()
            &&& w.log.deps == log.deps || w.log.deps == with_deps(log.deps, id as nat, d)
            &&& w.log.deps.len() <= w.log.nodes.len()
        }),
{
    let all = seq![node] + d.nodes;
    let w0 = Writing { state: s, nodes: log.nodes, bytes: Seq::empty(), grown: false };
    assert forall|k: int| 0 <= k < all.len() implies (#[trigger] all[k]).0 < s.nodes.len() by {
        if k > 0 {
            assert(all[k] == d.nodes[k - 1]);
        }
    }
    lemma_ids_written(w0, all, 0);
    assert(all[0] == node);
}

proof fn lemma_no_more_than(v: Seq<NodeId>, n: nat)
    requires
        v.no_duplicates(),
        nodes_below(v, n),
    ensures
        v.len() <= n,
{
    let ids = Seq::new(v.len(), |i: int| v[i].0 as int);
    assert(ids.no_duplicates());
    vstd::seq_lib::seq_to_set_is_finite(ids);
    ids.unique_seq_to_set();
    vstd::set_lib::lemma_int_range(0, n as int);
    let range = vstd::set_lib::set_int_range(0, n as int);
    assert(ids.to_set().subset_of(range)) by {
        assert forall|x: int| ids.to_set().contains(x) implies range.contains(x) by {
            let i = choose|i: int| 0 <= i < ids.len() && ids[i] == x;
            assert(v[i].0 < n);
        }
    }
    vstd::set_lib::lemma_len_subset(ids.to_set(), range);
}

proof fn lemma_ids_left(w: Writing, nodes: Seq<NodeId>, k: int)
    requires
        0 <= k,
        w.state.wf(),
        ids_agree(w.nodes, w.state),
        nodes_below(nodes, w.state.nodes.len()),
        w.state.nodes.len() <= i32::MAX,
    ensures
        ids_written(w, nodes, k).0.nodes.len() <= i32::MAX,
    decreases nodes.len() - k,
{
    let s = w.state;
    if k < nodes.len() {
        if let Ok(n) = id_written(w, nodes[k]) {
            if n != w {
                let all = w.nodes.push(nodes[k]);
                assert(s.nodes[nodes[k].0 as int].deps_log_id < 0);
                assert forall|i: int, j: int| 0 <= i < j < all.len() implies all[i] != all[j] by {
                    assert(s.nodes[w.nodes[i].0 as int].deps_log_id == i);
                    if j < w.nodes.len() {
                        assert(s.nodes[w.nodes[j].0 as int].deps_log_id == j);
                    }
                }
                lemma_no_more_than(all, s.nodes.len());
                lemma_numbered(s, w.nodes, nodes[k]);
            }
            lemma_ids_left(n, nodes, k + 1);
        }
    }
}

/// There are never more ids than nodes.
pub proof fn lemma_ids_are_few(log: DepsLogView, s: StateView, node: NodeId, d: DepsView)
    requires
        s.wf(),
        ids_agree(log.nodes, s),
        node.0 < s.nodes.len(),
        nodes_below(d.nodes, s.nodes.len()),
        s.nodes.len() <= i32::MAX,
    ensures
        deps_recorded(log, s, node, d).log.nodes.len() <= i32::MAX,
{
    let all = seq![node] + d.nodes;
    let w0 = Writing { state: s, nodes: log.nodes, bytes: Seq::empty(), grown: false };
    assert forall|k: int| 0 <= k < all.len() implies (#[trigger] all[k]).0 < s.nodes.len() by {
        if k > 0 {
            assert(all[k] == d.nodes[k - 1]);
        }
    }
    lemma_ids_left(w0, all, 0);
}

/// What was recorded is known.
pub proof fn law_recorded_deps_are_known(log: DepsLogView, s: StateView, node: NodeId, d: DepsView)
    requires
        s.wf(),
        ids_agree(log.nodes, s),
        log.deps.len() <= log.nodes.len(),
        node.0 < s.nodes.len(),
        nodes_below(d.nodes, s.nodes.len()),
        deps_recorded(log, s, node, d).error is None,
        deps_recorded(log, s, node, d).log.nodes.len() <= i32::MAX,
    ensures
        ({
            let w = deps_recorded(log, s, node, d);
            w.log.deps_of(w.state, node) == Some(d)
        }),
{
    lemma_recorded(log, s, node, d);
    let w = deps_recorded(log, s, node, d);
    let id = w.state.nodes[node.0 as int].deps_log_id as int;
    let old_id = s.nodes[node.0 as int].deps_log_id as int;
    if old_id >= 0 {
        assert(log.nodes[old_id].0 == node.0);
        assert(w.log.nodes[old_id] == log.nodes[old_id]);
        assert(w.state.nodes[w.log.nodes[old_id].0 as int].deps_log_id == old_id);
    }
}

proof fn lemma_unnumbered(s: StateView, nodes: Seq<NodeId>, k: int)
    requires
        s.wf(),
        nodes_below(nodes, s.nodes.len()),
        0 <= k <= nodes.len(),
    ensures
        unnumbered(s, nodes, k).wf(),
        same_but_ids(s, unnumbered(s, nodes, k)),
        forall|i: int|
            0 <= i < k ==> unnumbered(s, nodes, k).nodes[(#[trigger] nodes[i]).0 as int].deps_log_id
                == -1,
        forall|n: int|
            0 <= n < s.nodes.len() ==> (#[trigger] unnumbered(s, nodes, k).nodes[n]).deps_log_id == -1
                || unnumbered(s, nodes, k).nodes[n] == s.nodes[n],
    decreases k,
{
    if k > 0 {
        lemma_unnumbered(s, nodes, k - 1);
        let t = unnumbered(s, nodes, k - 1);
        let u = unnumbered(s, nodes, k);
        let i = nodes[k - 1].0 as int;
        lemma_node_update(t, i, u.nodes[i]);
        assert(same_but_ids(t, u));
        lemma_same_but_ids_twice(s, t, u);
        assert forall|n: int| 0 <= n < s.nodes.len() implies (#[trigger] u.nodes[n]).deps_log_id
            == -1 || u.nodes[n] == s.nodes[n] by {
            if n != i {
                assert(u.nodes[n] == t.nodes[n]);
            }
        }
        assert forall|j: int| 0 <= j < k implies u.nodes[(#[trigger] nodes[j]).0 as int].deps_log_id
            == -1 by {
            if nodes[j].0 != i {
                assert(t.nodes[nodes[j].0 as int].deps_log_id == -1);
            }
        }
    }
}

/// The dependencies of a node that rewriting a log keeps, once the first `k`
/// entries have been looked at: those of an output that still matters.
pub open spec fn kept_deps(log: DepsLogView, s: StateView, node: NodeId, k: int) -> Option<DepsView> {
    if s.nodes[node.0 as int].deps_log_id < k && is_live(s, node) {
        log.deps_of(s, node)
    } else {
        None
    }
}

spec fn rewriting(log: DepsLogView, s: StateView, t: StateView, k: int, r: Recorded) -> bool {
    &&& r.error is None
    &&& r.state.wf()
    &&& same_but_ids(s, r.state)
    &&& ids_agree(r.log.nodes, r.state)
    &&& r.log.fits(s.nodes.len())
    &&& r.log.deps.len() <= r.log.nodes.len()
    &&& loads_as(r.bytes, t, r.log, r.state)
    &&& forall|n: int|
        0 <= n < s.nodes.len() ==> r.log.deps_of(r.state, NodeId(n as usize)) == #[trigger] kept_deps(
            log,
            s,
            NodeId(n as usize),
            k,
        )
}

proof fn lemma_rewritten(log: DepsLogView, s: StateView, t: StateView, k: int, r: Recorded)
    requires
        0 <= k <= log.deps.len(),
        s.wf(),
        s.nodes.len() <= usize::MAX,
        ids_agree(log.nodes, s),
        log.fits(s.nodes.len()),
        outputs_known(log),
        all_recordable(s),
        rewriting(log, s, t, k, r),
        rewritten(log, k, r).error is None,
        rewritten(log, k, r).log.nodes.len() <= i32::MAX,
        t.nodes.len() + rewritten(log, k, r).log.nodes.len() <= usize::MAX,
    ensures
        rewriting(log, s, t, log.deps.len() as int, rewritten(log, k, r)),
    decreases log.deps.len() - k,
{
    if k < log.deps.len() {
        let node = if log.deps[k] is Some {
            log.nodes[k]
        } else {
            NodeId(0)
        };
        if log.deps[k] is Some {
            assert(s.nodes[log.nodes[k].0 as int].deps_log_id == k);
            lemma_same_liveness(s, r.state, node);
        }
        let next = if log.deps[k] is None || !is_live(r.state, log.nodes[k]) {
            r
        } else {
            let n = deps_recorded(r.log, r.state, log.nodes[k], log.deps[k]->0);
            Recorded { bytes: r.bytes + n.bytes, ..n }
        };
        if next != r || (log.deps[k] is Some && is_live(r.state, log.nodes[k])) {
            let d = log.deps[k]->0;
            assert(deps_fit(log.deps[k], s.nodes.len()));
            assert(log.nodes[k].0 < s.nodes.len());
            let n = deps_recorded(r.log, r.state, node, d);
            assert(n.error is None) by {
                if n.error is Some {
                    assert(rewritten(log, k, r) == next);
                }
            }
            lemma_rewritten_grows(log, k + 1, next);
            assert(all_recordable(r.state)) by {
                assert forall|m: int| 0 <= m < r.state.nodes.len() implies is_recordable(
                    (#[trigger] r.state.nodes[m]).path,
                ) by {
                    assert(is_recordable(s.nodes[m].path));
                }
            }
            law_recorded_deps_read_back(r.bytes, t, r.log, r.state, node, d);
            lemma_recorded(r.log, r.state, node, d);
            lemma_same_but_ids_twice(s, r.state, n.state);
            lemma_recorded_fits(r.log, n.log, n.state, node, d);
        }
        assert forall|m: int| 0 <= m < s.nodes.len() implies next.log.deps_of(
            next.state,
            NodeId(m as usize),
        ) == #[trigger] kept_deps(log, s, NodeId(m as usize), k + 1) by {
            let x = NodeId(m as usize);
            assert(r.log.deps_of(r.state, x) == kept_deps(log, s, x, k));
            let id = s.nodes[m].deps_log_id as int;
            if id == k && log.deps[k] is Some {
                assert(log.nodes[id].0 == m);
                assert(x == log.nodes[k]);
            } else if next != r {
                let d = log.deps[k]->0;
                if x == node {
                    assert(id == k);
                }
                law_recording_keeps_other_deps(r.log, r.state, node, d, x);
            }
        }
        lemma_rewritten(log, s, t, k + 1, next);
    }
}

proof fn lemma_recorded_fits(log: DepsLogView, done: DepsLogView, s: StateView, node: NodeId, d: DepsView)
    requires
        log.fits(s.nodes.len()),
        nodes_below(done.nodes, s.nodes.len()),
        nodes_below(d.nodes, s.nodes.len()),
        done.deps == log.deps || exists|id: nat| done.deps == #[trigger] with_deps(log.deps, id, d),
    ensures
        done.fits(s.nodes.len()),
{
    assert forall|i: int| 0 <= i < done.deps.len() implies deps_fit(
        #[trigger] done.deps[i],
        s.nodes.len(),
    ) by {
        if i < log.deps.len() {
            assert(deps_fit(log.deps[i], s.nodes.len()));
        }
    }
}

proof fn lemma_rewritten_grows(log: DepsLogView, k: int, r: Recorded)
    requires
        0 <= k,
    ensures
        r.log.nodes.len() <= rewritten(log, k, r).log.nodes.len(),
    decreases log.deps.len() - k,
{
    if k < log.deps.len() {
        match log.deps[k] {
            None => {
                lemma_rewritten_grows(log, k + 1, r);
            },
            Some(d) => {
                if !is_live(r.state, log.nodes[k]) {
                    lemma_rewritten_grows(log, k + 1, r);
                } else {
                    let n = deps_recorded(r.log, r.state, log.nodes[k], d);
                    lemma_log_grows(
                        Writing {
                            state: r.state,
                            nodes: r.log.nodes,
                            bytes: Seq::empty(),
                            grown: false,
                        },
                        seq![log.nodes[k]] + d.nodes,
                        0,
                    );
                    lemma_rewritten_grows(log, k + 1, Recorded { bytes: r.bytes + n.bytes, ..n });
                }
            },
        }
    }
}

proof fn lemma_rewriting_start(log: DepsLogView, s: StateView, t: StateView)
    requires
        s.wf(),
        ids_agree(log.nodes, s),
        t.wf(),
        ids_agree(Seq::empty(), t),
    ensures
        ({
            let u = unnumbered(s, log.nodes, log.nodes.len() as int);
            rewriting(
                log,
                s,
                t,
                0,
                Recorded { log: empty_log(), state: u, bytes: header(), error: None },
            )
        }),
{
    let u = unnumbered(s, log.nodes, log.nodes.len() as int);
    lemma_unnumbered(s, log.nodes, log.nodes.len() as int);
    assert forall|n: int| 0 <= n < u.nodes.len() implies (#[trigger] u.nodes[n]).deps_log_id < 0 by {
        if u.nodes[n].deps_log_id != -1 {
            assert(u.nodes[n] == s.nodes[n]);
            let id = s.nodes[n].deps_log_id as int;
            if id >= 0 {
                assert(log.nodes[id].0 == n);
                assert(u.nodes[log.nodes[id].0 as int].deps_log_id == -1);
            }
        }
    }
    law_header_loads_as_nothing(t, u);
    assert forall|n: int| 0 <= n < s.nodes.len() implies empty_log().deps_of(
        u,
        NodeId(n as usize),
    ) == #[trigger] kept_deps(log, s, NodeId(n as usize), 0) by {
    }
}

/// Rewriting a log loses nothing that matters and keeps nothing else: the
/// dependencies of every output that still matters are what they were, no other
/// node has any, and the new file loads as the new log.
pub proof fn law_recompaction_keeps_live_deps(
    log: DepsLogView,
    s: StateView,
    t: StateView,
    node: NodeId,
)
    requires
        s.wf(),
        s.nodes.len() <= usize::MAX,
        ids_agree(log.nodes, s),
        log.fits(s.nodes.len()),
        outputs_known(log),
        all_recordable(s),
        t.wf(),
        ids_agree(Seq::empty(), t),
        node.0 < s.nodes.len(),
        recompacted(log, s).error is None,
        recompacted(log, s).log.nodes.len() <= i32::MAX,
        t.nodes.len() + recompacted(log, s).log.nodes.len() <= usize::MAX,
    ensures
        ({
            let w = recompacted(log, s);
            &&& w.log.deps_of(w.state, node) == if is_live(s, node) {
                log.deps_of(s, node)
            } else {
                None
            }
            &&& loads_as(w.bytes, t, w.log, w.state)
        }),
{
    let u = unnumbered(s, log.nodes, log.nodes.len() as int);
    let r = Recorded { log: empty_log(), state: u, bytes: header(), error: None };
    lemma_rewriting_start(log, s, t);
    lemma_rewritten(log, s, t, 0, r);
    let w = recompacted(log, s);
    assert(w.log.deps_of(w.state, node) == kept_deps(log, s, node, log.deps.len() as int)) by {
        assert(NodeId(node.0 as int as usize) == node);
    }
}

/// What recording the same dependencies twice in a row comes to: the second
/// time nothing is written, and nothing changes.
pub proof fn law_recording_again_writes_nothing(
    log: DepsLogView,
    s: StateView,
    node: NodeId,
    d: DepsView,
)
    requires
        s.wf(),
        ids_agree(log.nodes, s),
        log.deps.len() <= log.nodes.len(),
        node.0 < s.nodes.len(),
        nodes_below(d.nodes, s.nodes.len()),
        deps_recorded(log, s, node, d).error is None,
        deps_recorded(log, s, node, d).log.nodes.len() <= i32::MAX,
    ensures
        ({
            let w = deps_recorded(log, s, node, d);
            &&& w.log.deps_of(w.state, node) == Some(d)
            &&& deps_recorded(w.log, w.state, node, d) == (Recorded {
                log: w.log,
                state: w.state,
                bytes: Seq::empty(),
                error: None,
            })
        }),
{
    let all = seq![node] + d.nodes;
    let w0 = Writing { state: s, nodes: log.nodes, bytes: Seq::empty(), grown: false };
    assert forall|k: int| 0 <= k < all.len() implies (#[trigger] all[k]).0 < s.nodes.len() by {
        if k > 0 {
            assert(all[k] == d.nodes[k - 1]);
        }
    }
    lemma_recorded(log, s, node, d);
    lemma_ids_written(w0, all, 0);
    lemma_not_grown(w0, all, 0);
    assert(all[0] == node);
    let w = deps_recorded(log, s, node, d);
    assert forall|i: int| 0 <= i < d.nodes.len() implies w.state.nodes[(
    #[trigger] d.nodes[i]).0 as int].deps_log_id >= 0 by {
        assert(all[i + 1] == d.nodes[i]);
    }
    law_unchanged_deps_are_not_written(w.log, w.state, node, d);
}

/// What recording dependencies one after the other comes to, up to the first
/// that cannot be recorded.
pub open spec fn all_recorded(log: DepsLogView, s: StateView, v: Seq<(NodeId, DepsView)>) -> Recorded
    decreases v.len(),
{
    if v.len() == 0 {
        Recorded { log, state: s, bytes: Seq::empty(), error: None }
    } else {
        let r = all_recorded(log, s, v.drop_last());
        if r.error is Some {
            r
        } else {
            let x = deps_recorded(r.log, r.state, v.last().0, v.last().1);
            Recorded { bytes: r.bytes + x.bytes, ..x }
        }
    }
}

/// The dependencies that were recorded last for `node`, if any were.
pub open spec fn last_recording(v: Seq<(NodeId, DepsView)>, node: NodeId) -> Option<DepsView>
    decreases v.len(),
{
    if v.len() == 0 {
        None
    } else if v.last().0 == node {
        Some(v.last().1)
    } else {
        last_recording(v.drop_last(), node)
    }
}

/// Whether all nodes of the recordings are nodes of the graph.
pub open spec fn recordings_fit(v: Seq<(NodeId, DepsView)>, n: nat) -> bool {
    forall|i: int|
        0 <= i < v.len() ==> (#[trigger] v[i]).0.0 < n && nodes_below(v[i].1.nodes, n)
}

#[verifier::spinoff_prover]
#[verifier::rlimit(60)]
proof fn lemma_all_recorded(t: StateView, s: StateView, v: Seq<(NodeId, DepsView)>)
    requires
        s.wf(),
        ids_agree(Seq::empty(), s),
        all_recordable(s),
        t.wf(),
        ids_agree(Seq::empty(), t),
        recordings_fit(v, s.nodes.len()),
        all_recorded(empty_log(), s, v).error is None,
        all_recorded(empty_log(), s, v).log.nodes.len() <= i32::MAX,
        t.nodes.len() + all_recorded(empty_log(), s, v).log.nodes.len() <= usize::MAX,
    ensures
        ({
            let w = all_recorded(empty_log(), s, v);
            &&& w.state.wf()
            &&& ids_agree(w.log.nodes, w.state)
            &&& w.log.fits(w.state.nodes.len())
            &&& w.log.deps.len() <= w.log.nodes.len()
            &&& same_but_ids(s, w.state)
            &&& loads_as(header() + w.bytes, t, w.log, w.state)
            &&& forall|n: NodeId|
                n.0 < s.nodes.len() ==> #[trigger] w.log.deps_of(w.state, n) == last_recording(v, n)
        }),
    decreases v.len(),
{
    let w = all_recorded(empty_log(), s, v);
    if v.len() == 0 {
        law_header_loads_as_nothing(t, s);
        assert(header() + w.bytes =~= header());
    } else {
        let u = v.drop_last();
        let r = all_recorded(empty_log(), s, u);
        let (node, d) = v.last();
        let x = deps_recorded(r.log, r.state, node, d);
        let all = seq![node] + d.nodes;
        lemma_log_grows(
            Writing { state: r.state, nodes: r.log.nodes, bytes: Seq::empty(), grown: false },
            all,
            0,
        );
        assert forall|i: int| 0 <= i < u.len() implies (#[trigger] u[i]).0.0 < s.nodes.len()
            && nodes_below(u[i].1.nodes, s.nodes.len()) by {
            assert(u[i] == v[i]);
        }
        assert(v[v.len() - 1] == v.last());
        lemma_all_recorded(t, s, u);
        assert forall|n: int| 0 <= n < r.state.nodes.len() implies is_recordable(
            (#[trigger] r.state.nodes[n]).path,
        ) by {
            assert(is_recordable(s.nodes[n].path));
        }
        law_recorded_deps_read_back(header() + r.bytes, t, r.log, r.state, node, d);
        assert(header() + w.bytes =~= (header() + r.bytes) + x.bytes);
        lemma_recorded(r.log, r.state, node, d);
        lemma_same_but_ids_twice(s, r.state, x.state);
        lemma_recorded_fits(r.log, x.log, x.state, node, d);
        assert forall|n: NodeId| n.0 < s.nodes.len() implies #[trigger] w.log.deps_of(w.state, n)
            == last_recording(v, n) by {
            if n != node {
                law_recording_keeps_other_deps(r.log, r.state, node, d, n);
                assert(r.log.deps_of(r.state, n) == last_recording(u, n));
            }
        }
    }
}

/// A log file that was written by recording dependencies one after the other
/// loads in full, and gives for every output the dependencies that were
/// recorded last for it.
pub proof fn law_recordings_read_back(
    t: StateView,
    s: StateView,
    v: Seq<(NodeId, DepsView)>,
    node: NodeId,
)
    requires
        s.wf(),
        ids_agree(Seq::empty(), s),
        all_recordable(s),
        t.wf(),
        ids_agree(Seq::empty(), t),
        recordings_fit(v, s.nodes.len()),
        all_recorded(empty_log(), s, v).error is None,
        all_recorded(empty_log(), s, v).log.nodes.len() <= i32::MAX,
        t.nodes.len() + all_recorded(empty_log(), s, v).log.nodes.len() <= usize::MAX,
        node.0 < s.nodes.len(),
        last_recording(v, node) is Some,
    ensures
        ({
            let file = Some(header() + all_recorded(empty_log(), s, v).bytes);
            let (log, u) = loaded(empty_log(), t, file);
            let d = last_recording(v, node)->0;
            &&& load_warning(empty_log(), t, file) is None
            &&& load_repair(empty_log(), t, file) == Repair::Keep
            &&& u.find_node(path_of(s, node)) matches Some(o) && (log.deps_of(u, o) matches Some(e)
                && e.mtime == d.mtime && same_paths(d.nodes, s, e.nodes, u))
        }),
{
    lemma_all_recorded(t, s, v);
    let w = all_recorded(empty_log(), s, v);
    let c = header() + w.bytes;
    let r = records_read(c, 16, reading_start(empty_log(), t)).0;
    let (log, u) = loaded(empty_log(), t, Some(c));
    let d = last_recording(v, node)->0;
    assert(w.log.deps_of(w.state, node) == Some(d));
    let id = w.state.nodes[node.0 as int].deps_log_id as int;
    assert(w.log.nodes[id].0 == node.0);
    let o = r.nodes[id];
    assert(path_of(w.state, w.log.nodes[id]) == path_of(r.state, o));
    assert(path_of(s, node) == path_of(u, o));
    lemma_node_index(u.nodes, path_of(s, node), 0);
    let k = crate::state::node_index(u.nodes, path_of(s, node), 0);
    assert(u.nodes[o.0 as int].path == path_of(s, node));
    if k != o.0 {
        if k < o.0 {
            assert(u.nodes[k].path != u.nodes[o.0 as int].path);
        }
    }
    assert(u.find_node(path_of(s, node)) == Some(o));
    assert(u.nodes[o.0 as int].deps_log_id == id);
    assert(same_deps(w.log.deps[id], w.state, r.deps[id], r.state));
    let e = r.deps[id]->0;
    assert(deps_fit(w.log.deps[id], w.state.nodes.len()));
    assert forall|i: int| 0 <= i < d.nodes.len() implies path_of(s, #[trigger] d.nodes[i])
        == path_of(u, e.nodes[i]) by {
        assert(path_of(w.state, d.nodes[i]) == path_of(r.state, e.nodes[i]));
    }
}

} // verus!
