//! Dynamic dependencies (`dyndep`): extra inputs and outputs discovered by
//! running part of the build.

use vstd::prelude::*;
use vstd::string::*;

use crate::canon::canonicalize_path;
use crate::disk::DiskInterface;
use crate::error::Error;
use crate::eval::{Env, EvalString, MapEnv};
use crate::lexer::{Lexer, Token};
use crate::parse::{parse_let, quoted, read_paths_behind};
use crate::state::{EdgeId, NodeId, State};
use crate::text::str_eq;
use crate::version::parse_version;

verus! {

use crate::canon::canonical;
use crate::error::ErrorView;
use crate::eval::{evaluation, expansion, TokView};
use crate::lexer::{lexing_error, token_name, LexerView};
use crate::parse::{let_at, lemma_after_token, path_toks, paths_behind, PathToks};
use crate::state::{
    halted, lemma_edge_update, lemma_node_index, lemma_node_update, nodes_below, EdgeView, Halt,
    NodeView, StateView,
};
use crate::version::version_numbers;

/// Dynamically discovered dependency information for one edge.
#[derive(Debug)]
pub struct Dyndeps {
    /// Set once the information has been applied to its edge.
    pub used: bool,
    /// Whether the dyndep file asked for `restat` behaviour.
    pub restat: bool,
    /// Extra implicit inputs.
    pub implicit_inputs: Vec<NodeId>,
    /// Extra implicit outputs.
    pub implicit_outputs: Vec<NodeId>,
}

/// The dependency information for one edge by what it says.
#[verifier::ext_equal]
pub struct DyndepsView {
    pub used: bool,
    pub restat: bool,
    pub implicit_inputs: Seq<NodeId>,
    pub implicit_outputs: Seq<NodeId>,
}

impl View for Dyndeps {
    type V = DyndepsView;

    open spec fn view(&self) -> DyndepsView {
        DyndepsView {
            used: self.used,
            restat: self.restat,
            implicit_inputs: self.implicit_inputs@,
            implicit_outputs: self.implicit_outputs@,
        }
    }
}

/// The contents of one dyndep file: the new dependencies of each edge.
#[derive(Debug)]
pub struct DyndepFile {
    /// Entries with their edges, in manifest order; no edge has two.
    pub entries: Vec<(EdgeId, Dyndeps)>,
}

/// The entries of a dyndep file by what they say.
pub type Entries = Seq<(EdgeId, DyndepsView)>;

/// Entries by what they say.
pub open spec fn entry_views(v: Seq<(EdgeId, Dyndeps)>) -> Entries {
    Seq::new(v.len(), |i: int| (v[i].0, v[i].1@))
}

impl View for DyndepFile {
    type V = Entries;

    open spec fn view(&self) -> Entries {
        entry_views(self.entries@)
    }
}

/// Whether the entries are in manifest order, without two for one edge.
pub open spec fn in_order(v: Entries) -> bool {
    forall|i: int, j: int| 0 <= i < j < v.len() ==> (#[trigger] v[i]).0.0 < (#[trigger] v[j]).0.0
}

/// Whether the ids in an entry are ids of the graph.
pub open spec fn entry_ok(d: DyndepsView, s: StateView) -> bool {
    nodes_below(d.implicit_inputs, s.nodes.len()) && nodes_below(
        d.implicit_outputs,
        s.nodes.len(),
    )
}

/// Whether all ids are ids of the graph.
pub open spec fn entries_ok(v: Entries, s: StateView) -> bool {
    forall|i: int|
        0 <= i < v.len() ==> (#[trigger] v[i]).0.0 < s.edges.len() && entry_ok(v[i].1, s)
}

/// The first entry from the `k`-th on that is not for an earlier edge.
pub open spec fn place(v: Entries, edge: EdgeId, k: int) -> int
    decreases v.len() - k,
{
    if 0 <= k < v.len() && v[k].0.0 < edge.0 {
        place(v, edge, k + 1)
    } else {
        k
    }
}

/// Whether there is an entry for `edge`.
pub open spec fn has_entry(v: Entries, edge: EdgeId) -> bool {
    place(v, edge, 0) < v.len() && v[place(v, edge, 0)].0 == edge
}

/// The entries with one more.
pub open spec fn with_entry(v: Entries, edge: EdgeId, d: DyndepsView) -> Entries {
    v.insert(place(v, edge, 0), (edge, d))
}

/// Nothing is bound in a dyndep file.
pub open spec fn unbound() -> spec_fn(Seq<char>) -> Seq<char> {
    |v: Seq<char>| Seq::<char>::empty()
}

/// The text of a value in a dyndep file, where every variable is empty.
pub open spec fn plain(toks: Seq<TokView>) -> Seq<char> {
    expansion(toks, unbound())
}

/// The edge that makes `path`, if one does.
pub open spec fn producer_of(s: StateView, path: Seq<char>) -> Option<EdgeId> {
    match s.find_node(path) {
        Some(n) => s.nodes[n.0 as int].in_edge,
        None => None,
    }
}

/// The edge that a statement is about, from its first path.
pub open spec fn subject_at(s: StateView, v: Entries, l: LexerView) -> Result<
    (EdgeId, LexerView),
    ErrorView,
> {
    let o = l.string(true, Seq::empty());
    let l1 = l.after_string(true);
    let path = canonical(plain(o.toks));
    match o.error {
        Some(m) => Err(l1.error(m)),
        None => if o.toks.len() == 0 {
            Err(l1.error("expected path"@))
        } else if plain(o.toks).len() == 0 {
            Err(l1.error("empty path"@))
        } else {
            match producer_of(s, path) {
                None => Err(l1.error("no build statement exists for '"@ + path + "'"@)),
                Some(e) => if has_entry(v, e) {
                    Err(l1.error("multiple statements for '"@ + path + "'"@))
                } else {
                    Ok((e, l1))
                },
            }
        },
    }
}

/// No path, or an error with the given message.
pub open spec fn no_path_at(l: LexerView, message: Seq<char>) -> Result<LexerView, ErrorView> {
    let o = l.string(true, Seq::empty());
    let l1 = l.after_string(true);
    match o.error {
        Some(m) => Err(l1.error(m)),
        None => if o.toks.len() > 0 {
            Err(l1.error(message))
        } else {
            Ok(l1)
        },
    }
}

/// The implicit outputs, up to the colon.
pub open spec fn extra_outs_at(l: LexerView) -> Result<(PathToks, LexerView), ErrorView> {
    match no_path_at(l, "explicit outputs not supported"@) {
        Err(e) => Err(e),
        Ok(l1) => match paths_behind(l1, Token::Pipe, Seq::empty()) {
            Err(e) => Err(e),
            Ok((outs, l2)) => {
                let l3 = l2.after_token();
                if l2.next() != Token::Colon {
                    Err(l3.error(l2.unexpected(Token::Colon)))
                } else {
                    Ok((outs, l3))
                }
            },
        },
    }
}

/// The command name and the implicit inputs, up to the end of the line.
pub open spec fn extra_ins_at(l: LexerView) -> Result<(PathToks, LexerView), ErrorView> {
    let l0 = l.after_ident();
    if l.ident() != Some("dyndep"@) {
        Err(l0.error("expected build command name 'dyndep'"@))
    } else {
        match no_path_at(l0, "explicit inputs not supported"@) {
            Err(e) => Err(e),
            Ok(l1) => match paths_behind(l1, Token::Pipe, Seq::empty()) {
                Err(e) => Err(e),
                Ok((ins, l2)) => {
                    let l3 = l2.after_peek(Token::Pipe2);
                    let l4 = l3.after_token();
                    if l2.next() == Token::Pipe2 {
                        Err(l3.error("order-only inputs not supported"@))
                    } else if l3.next() != Token::Newline {
                        Err(l4.error(l3.unexpected(Token::Newline)))
                    } else {
                        Ok((ins, l4))
                    }
                },
            },
        }
    }
}

/// Whether the statement asks for `restat`, in its one indented line.
pub open spec fn restat_at(l: LexerView) -> Result<(bool, LexerView), ErrorView> {
    let l1 = l.after_peek(Token::Indent);
    if l.next() != Token::Indent {
        Ok((false, l1))
    } else {
        match let_at(l1) {
            Err(e) => Err(e),
            Ok((key, toks, l2)) => if key != "restat"@ {
                Err(l2.error("binding is not 'restat'"@))
            } else {
                Ok((plain(toks).len() > 0, l2))
            },
        }
    }
}

/// The graph with a node for each of the paths from the `k`-th on, and these
/// nodes behind `acc`; only the graph reached if a path is empty.
pub open spec fn paths_interned(s: StateView, paths: PathToks, k: int, acc: Seq<NodeId>) -> Result<
    (StateView, Seq<NodeId>),
    StateView,
>
    decreases paths.len() - k,
{
    if 0 <= k < paths.len() {
        let p = plain(paths[k]);
        if p.len() == 0 {
            Err(s)
        } else {
            paths_interned(
                s.interned(canonical(p), 0),
                paths,
                k + 1,
                acc.push(s.id_of(canonical(p))),
            )
        }
    } else {
        Ok((s, acc))
    }
}

/// What one statement of a dyndep file says.
#[verifier::opaque]
pub open spec fn statement_at(s: StateView, v: Entries, l: LexerView) -> Result<
    (StateView, Entries, LexerView),
    Halt,
> {
    match subject_at(s, v, l) {
        Err(e) => halted(e, s),
        Ok((edge, l1)) => match extra_outs_at(l1) {
            Err(e) => halted(e, s),
            Ok((outs, l2)) => match extra_ins_at(l2) {
                Err(e) => halted(e, s),
                Ok((ins, l3)) => match restat_at(l3) {
                    Err(e) => halted(e, s),
                    Ok((restat, l4)) => match paths_interned(s, ins, 0, Seq::empty()) {
                        Err(t) => halted(l4.error("empty path"@), t),
                        Ok((s1, inputs)) => match paths_interned(s1, outs, 0, Seq::empty()) {
                            Err(t) => halted(l4.error("empty path"@), t),
                            Ok((s2, outputs)) => Ok(
                                (
                                    s2,
                                    with_entry(
                                        v,
                                        edge,
                                        DyndepsView {
                                            used: false,
                                            restat,
                                            implicit_inputs: inputs,
                                            implicit_outputs: outputs,
                                        },
                                    ),
                                    l4,
                                ),
                            ),
                        },
                    },
                },
            },
        },
    }
}

/// The line that gives the version of the format.
#[verifier::opaque]
pub open spec fn version_at(l: LexerView) -> Result<LexerView, ErrorView> {
    match let_at(l) {
        Err(e) => Err(e),
        Ok((key, toks, l1)) => if key != "ninja_dyndep_version"@ {
            Err(l1.error("expected 'ninja_dyndep_version = ...'"@))
        } else if version_numbers(plain(toks)) != (1int, 0int) {
            Err(l1.error("unsupported 'ninja_dyndep_version = "@ + plain(toks) + "'"@))
        } else {
            Ok(l1)
        },
    }
}

/// What the rest of a dyndep file says.
pub open spec fn dyndep_lines(s: StateView, v: Entries, versioned: bool, l: LexerView) -> Result<
    (StateView, Entries),
    Halt,
>
    decreases l.input.len() - l.ofs,
{
    let t = l.next();
    let l1 = l.after_token();
    if t == Token::Eof {
        if versioned {
            Ok((s, v))
        } else {
            halted(l1.error("expected 'ninja_dyndep_version = ...'"@), s)
        }
    } else if t == Token::Error {
        halted(l1.error(lexing_error(l1.input, l1.last)), s)
    } else {
        let r = if t == Token::Build {
            if versioned {
                match statement_at(s, v, l1) {
                    Err(e) => Err(e),
                    Ok((a, b, c)) => Ok((a, b, true, c)),
                }
            } else {
                halted(l1.error("expected 'ninja_dyndep_version = ...'"@), s)
            }
        } else if t == Token::Ident {
            if versioned {
                halted(l1.unread().error("unexpected "@ + token_name(t)), s)
            } else {
                match version_at(l1.unread()) {
                    Err(e) => halted(e, s),
                    Ok(c) => Ok((s, v, true, c)),
                }
            }
        } else if t == Token::Newline {
            Ok((s, v, versioned, l1))
        } else {
            halted(l1.error("unexpected "@ + token_name(t)), s)
        };
        match r {
            Err(e) => Err(e),
            Ok((a, b, c, l2)) => if l.ofs < l2.ofs <= l2.input.len() && l2.input == l.input {
                dyndep_lines(a, b, c, l2)
            } else {
                Ok((a, b))
            },
        }
    }
}

/// What a dyndep file says.
pub open spec fn dyndep_text(s: StateView, filename: Seq<char>, input: Seq<u8>) -> Result<
    (StateView, Entries),
    Halt,
> {
    dyndep_lines(
        s,
        Seq::empty(),
        false,
        LexerView { filename, input, ofs: 0, last: None },
    )
}

/// Evaluating a value where nothing is bound.
proof fn lemma_plain(toks: Seq<TokView>, m: Map<Seq<char>, Seq<char>>)
    requires
        m == Map::<Seq<char>, Seq<char>>::empty(),
    ensures
        evaluation::<MapEnv>(toks, m) == (plain(toks), m),
    decreases toks.len(),
{
    if toks.len() > 0 {
        lemma_plain(toks.drop_last(), m);
    }
}

fn plain_text(eval: &EvalString) -> (r: String)
    ensures
        r@ == plain(eval@),
{
    let mut env = MapEnv::new();
    proof {
        lemma_plain(eval@, env.model());
    }
    eval.evaluate(&mut env)
}

fn find_place(v: &Vec<(EdgeId, Dyndeps)>, edge: EdgeId) -> (r: usize)
    ensures
        r <= v@.len(),
        r == place(entry_views(v@), edge, 0),
{
    let mut k: usize = 0;
    while k < v.len() && v[k].0.0 < edge.0
        invariant
            k <= v@.len(),
            place(entry_views(v@), edge, k as int) == place(entry_views(v@), edge, 0),
        decreases v@.len() - k,
    {
        k += 1;
    }
    k
}

fn parse_subject<'a>(state: &State, v: &Vec<(EdgeId, Dyndeps)>, lexer: &mut Lexer<'a>) -> (r: Result<
    EdgeId,
    Error,
>)
    requires
        state.wf(),
        old(lexer)@.wf(),
    ensures
        final(lexer)@.wf(),
        final(lexer)@.same_file(old(lexer)@),
        final(lexer)@.ofs >= old(lexer)@.ofs,
        match (r, subject_at(state@, entry_views(v@), old(lexer)@)) {
            (Ok(e), Ok((w, l))) => e == w && final(lexer)@ == l && e.0 < state@.edges.len(),
            (Err(e), Err(f)) => e@ == f,
            _ => false,
        },
{
    let mut out = EvalString::new();
    match lexer.read_path(&mut out) {
        Err(e) => {
            return Err(e);
        },
        Ok(_) => {},
    }
    if out.is_empty() {
        return Err(lexer.error("expected path"));
    }
    let mut path: String = plain_text(&out);
    if path.as_str().is_empty() {
        return Err(lexer.error("empty path"));
    }
    canonicalize_path(&mut path);
    proof {
        state.lemma_wf();
        lemma_node_index(state@.nodes, path@, 0);
    }
    let edge: Option<EdgeId> = match state.lookup_node(path.as_str()) {
        Some(n) => {
            assert(state@.node_ok(state@.nodes[n.0 as int]));
            state.node(n).in_edge()
        },
        None => None,
    };
    match edge {
        None => Err(
            lexer.error(quoted("no build statement exists for '", path.as_str(), "'").as_str()),
        ),
        Some(e) => {
            let k: usize = find_place(v, e);
            if k < v.len() && v[k].0 == e {
                Err(lexer.error(quoted("multiple statements for '", path.as_str(), "'").as_str()))
            } else {
                Ok(e)
            }
        },
    }
}

fn expect_no_path<'a>(lexer: &mut Lexer<'a>, message: &str) -> (r: Result<(), Error>)
    requires
        old(lexer)@.wf(),
    ensures
        final(lexer)@.wf(),
        final(lexer)@.same_file(old(lexer)@),
        final(lexer)@.ofs >= old(lexer)@.ofs,
        match (r, no_path_at(old(lexer)@, message@)) {
            (Ok(_), Ok(l)) => final(lexer)@ == l,
            (Err(e), Err(f)) => e@ == f,
            _ => false,
        },
{
    let mut out = EvalString::new();
    match lexer.read_path(&mut out) {
        Err(e) => {
            return Err(e);
        },
        Ok(_) => {},
    }
    if !out.is_empty() {
        return Err(lexer.error(message));
    }
    Ok(())
}

fn parse_extra_outs<'a>(lexer: &mut Lexer<'a>) -> (r: Result<Vec<EvalString>, Error>)
    requires
        old(lexer)@.wf(),
    ensures
        final(lexer)@.wf(),
        final(lexer)@.same_file(old(lexer)@),
        final(lexer)@.ofs >= old(lexer)@.ofs,
        match (r, extra_outs_at(old(lexer)@)) {
            (Ok(v), Ok((w, l))) => path_toks(v@) == w && final(lexer)@ == l,
            (Err(e), Err(f)) => e@ == f,
            _ => false,
        },
{
    match expect_no_path(lexer, "explicit outputs not supported") {
        Err(e) => {
            return Err(e);
        },
        Ok(_) => {},
    }
    let mut outs: Vec<EvalString> = Vec::new();
    assert(path_toks(outs@) =~= Seq::empty());
    match read_paths_behind(lexer, Token::Pipe, &mut outs) {
        Err(e) => {
            return Err(e);
        },
        Ok(_) => {},
    }
    match lexer.expect_token(Token::Colon) {
        Err(e) => {
            return Err(e);
        },
        Ok(_) => {},
    }
    Ok(outs)
}

fn parse_extra_ins<'a>(lexer: &mut Lexer<'a>) -> (r: Result<Vec<EvalString>, Error>)
    requires
        old(lexer)@.wf(),
    ensures
        final(lexer)@.wf(),
        final(lexer)@.same_file(old(lexer)@),
        final(lexer)@.ofs >= old(lexer)@.ofs,
        match (r, extra_ins_at(old(lexer)@)) {
            (Ok(v), Ok((w, l))) => path_toks(v@) == w && final(lexer)@ == l,
            (Err(e), Err(f)) => e@ == f,
            _ => false,
        },
{
    let named: bool = match lexer.read_ident() {
        Some(name) => str_eq(name.as_str(), "dyndep"),
        None => false,
    };
    if !named {
        return Err(lexer.error("expected build command name 'dyndep'"));
    }
    match expect_no_path(lexer, "explicit inputs not supported") {
        Err(e) => {
            return Err(e);
        },
        Ok(_) => {},
    }
    let mut ins: Vec<EvalString> = Vec::new();
    assert(path_toks(ins@) =~= Seq::empty());
    match read_paths_behind(lexer, Token::Pipe, &mut ins) {
        Err(e) => {
            return Err(e);
        },
        Ok(_) => {},
    }
    if lexer.peek_token(Token::Pipe2) {
        return Err(lexer.error("order-only inputs not supported"));
    }
    match lexer.expect_token(Token::Newline) {
        Err(e) => {
            return Err(e);
        },
        Ok(_) => {},
    }
    Ok(ins)
}

fn parse_restat<'a>(lexer: &mut Lexer<'a>) -> (r: Result<bool, Error>)
    requires
        old(lexer)@.wf(),
    ensures
        final(lexer)@.wf(),
        final(lexer)@.same_file(old(lexer)@),
        final(lexer)@.ofs >= old(lexer)@.ofs,
        match (r, restat_at(old(lexer)@)) {
            (Ok(b), Ok((w, l))) => b == w && final(lexer)@ == l,
            (Err(e), Err(f)) => e@ == f,
            _ => false,
        },
{
    if lexer.peek_token(Token::Indent) {
        match parse_let(lexer) {
            Err(e) => Err(e),
            Ok((key, val)) => {
                if !str_eq(key.as_str(), "restat") {
                    Err(lexer.error("binding is not 'restat'"))
                } else {
                    Ok(!plain_text(&val).as_str().is_empty())
                }
            },
        }
    } else {
        Ok(false)
    }
}

/// Nothing but new nodes tells two graphs apart.
pub open spec fn only_grown(s: StateView, t: StateView) -> bool {
    &&& s.nodes.len() <= t.nodes.len()
    &&& s.edges == t.edges
    &&& s.pools == t.pools
    &&& forall|i: int| 0 <= i < s.nodes.len() ==> #[trigger] t.nodes[i] == s.nodes[i]
}

fn intern_paths(state: &mut State, paths: &Vec<EvalString>) -> (r: Option<Vec<NodeId>>)
    requires
        old(state).wf(),
    ensures
        final(state).wf(),
        only_grown(old(state)@, final(state)@),
        match (r, paths_interned(old(state)@, path_toks(paths@), 0, Seq::empty())) {
            (Some(v), Ok((s, w))) => v@ == w && final(state)@ == s && nodes_below(
                v@,
                s.nodes.len(),
            ),
            (None, Err(s)) => final(state)@ == s,
            _ => false,
        },
{
    let ghost toks = path_toks(paths@);
    let mut nodes: Vec<NodeId> = Vec::new();
    let mut k: usize = 0;
    assert(nodes@ =~= Seq::empty());
    while k < paths.len()
        invariant
            k <= paths@.len(),
            toks == path_toks(paths@),
            state.wf(),
            only_grown(old(state)@, state@),
            nodes_below(nodes@, state@.nodes.len()),
            paths_interned(state@, toks, k as int, nodes@) == paths_interned(
                old(state)@,
                toks,
                0,
                Seq::empty(),
            ),
        decreases paths@.len() - k,
    {
        assert(toks[k as int] == paths@[k as int]@);
        let mut path: String = plain_text(&paths[k]);
        if path.as_str().is_empty() {
            return None;
        }
        let bits: u64 = canonicalize_path(&mut path);
        let n = state.get_node(path.as_str(), bits);
        nodes.push(n);
        k += 1;
    }
    Some(nodes)
}

proof fn lemma_place(v: Entries, edge: EdgeId, k: int)
    requires
        in_order(v),
        0 <= k <= v.len(),
        forall|i: int| 0 <= i < k ==> (#[trigger] v[i]).0.0 < edge.0,
    ensures
        k <= place(v, edge, k) <= v.len(),
        forall|i: int| 0 <= i < place(v, edge, k) ==> (#[trigger] v[i]).0.0 < edge.0,
        forall|i: int| place(v, edge, k) <= i < v.len() ==> (#[trigger] v[i]).0.0 >= edge.0,
    decreases v.len() - k,
{
    if k < v.len() && v[k].0.0 < edge.0 {
        lemma_place(v, edge, k + 1);
    }
}

proof fn lemma_with_entry(v: Entries, edge: EdgeId, d: DyndepsView, s: StateView)
    requires
        in_order(v),
        entries_ok(v, s),
        !has_entry(v, edge),
        edge.0 < s.edges.len(),
        entry_ok(d, s),
    ensures
        in_order(with_entry(v, edge, d)),
        entries_ok(with_entry(v, edge, d), s),
{
    lemma_place(v, edge, 0);
    let p = place(v, edge, 0);
    let w = with_entry(v, edge, d);
    if p < v.len() {
        assert(v[p].0.0 != edge.0);
    }
    assert forall|i: int, j: int| 0 <= i < j < w.len() implies (#[trigger] w[i]).0.0 < (
    #[trigger] w[j]).0.0 by {
        let a = if i < p {
            i
        } else {
            i - 1
        };
        let b = if j < p {
            j
        } else {
            j - 1
        };
        if i != p {
            assert(w[i] == v[a]);
        }
        if j != p {
            assert(w[j] == v[b]);
            if i == p {
                assert(v[p].0.0 <= v[b].0.0);
            }
        }
    }
    assert forall|i: int| 0 <= i < w.len() implies (#[trigger] w[i]).0.0 < s.edges.len() && entry_ok(
        w[i].1,
        s,
    ) by {
        if i < p {
            assert(w[i] == v[i]);
        } else if i > p {
            assert(w[i] == v[i - 1]);
        }
    }
}

fn parse_edge<'a>(state: &mut State, lexer: &mut Lexer<'a>, ddf: &mut DyndepFile) -> (r: Result<
    (),
    Error,
>)
    requires
        old(state).wf(),
        old(lexer)@.wf(),
        in_order(old(ddf)@),
        entries_ok(old(ddf)@, old(state)@),
    ensures
        final(state).wf(),
        only_grown(old(state)@, final(state)@),
        final(lexer)@.wf(),
        final(lexer)@.same_file(old(lexer)@),
        final(lexer)@.ofs >= old(lexer)@.ofs,
        in_order(final(ddf)@),
        entries_ok(final(ddf)@, final(state)@),
        match (r, statement_at(old(state)@, old(ddf)@, old(lexer)@)) {
            (Ok(_), Ok((s, v, l))) => final(state)@ == s && final(ddf)@ == v && final(lexer)@ == l,
            (Err(e), Err(f)) => e@ == f.error && final(state)@ == f.state,
            _ => false,
        },
{
    let ghost s0 = state@;
    let ghost v0 = ddf@;
    proof {
        reveal(statement_at);
    }
    let edge: EdgeId = match parse_subject(state, &ddf.entries, lexer) {
        Err(e) => {
            return Err(e);
        },
        Ok(e) => e,
    };
    let outs = match parse_extra_outs(lexer) {
        Err(e) => {
            return Err(e);
        },
        Ok(v) => v,
    };
    let ins = match parse_extra_ins(lexer) {
        Err(e) => {
            return Err(e);
        },
        Ok(v) => v,
    };
    let restat: bool = match parse_restat(lexer) {
        Err(e) => {
            return Err(e);
        },
        Ok(b) => b,
    };
    let implicit_inputs = match intern_paths(state, &ins) {
        None => {
            return Err(lexer.error("empty path"));
        },
        Some(v) => v,
    };
    let ghost s1 = state@;
    let implicit_outputs = match intern_paths(state, &outs) {
        None => {
            return Err(lexer.error("empty path"));
        },
        Some(v) => v,
    };
    let d = Dyndeps { used: false, restat, implicit_inputs, implicit_outputs };
    let ghost dv = d@;
    proof {
        assert(nodes_below(d.implicit_inputs@, state@.nodes.len()));
        assert(entries_ok(v0, state@)) by {
            assert forall|i: int| 0 <= i < v0.len() implies (#[trigger] v0[i]).0.0
                < state@.edges.len() && entry_ok(v0[i].1, state@) by {
                assert(entry_ok(v0[i].1, s0));
            }
        }
        lemma_with_entry(v0, edge, dv, state@);
    }
    let k: usize = find_place(&ddf.entries, edge);
    ddf.entries.insert(k, (edge, d));
    assert(ddf@ =~= with_entry(v0, edge, dv));
    Ok(())
}

fn parse_dyndep_version<'a>(lexer: &mut Lexer<'a>) -> (r: Result<(), Error>)
    requires
        old(lexer)@.wf(),
    ensures
        final(lexer)@.wf(),
        final(lexer)@.same_file(old(lexer)@),
        final(lexer)@.ofs >= old(lexer)@.ofs,
        match (r, version_at(old(lexer)@)) {
            (Ok(_), Ok(l)) => final(lexer)@ == l && l.ofs > old(lexer)@.ofs,
            (Err(e), Err(f)) => e@ == f,
            _ => false,
        },
{
    proof {
        reveal(version_at);
    }
    match parse_let(lexer) {
        Err(e) => Err(e),
        Ok((name, value)) => {
            if !str_eq(name.as_str(), "ninja_dyndep_version") {
                return Err(lexer.error("expected 'ninja_dyndep_version = ...'"));
            }
            let version: String = plain_text(&value);
            let (major, minor) = parse_version(version.as_str());
            if major != 1 || minor != 0 {
                return Err(
                    lexer.error(
                        quoted(
                            "unsupported 'ninja_dyndep_version = ",
                            version.as_str(),
                            "'",
                        ).as_str(),
                    ),
                );
            }
            Ok(())
        },
    }
}

fn unexpected(token: Token) -> (r: String)
    ensures
        r@ == "unexpected "@ + token_name(token),
{
    let mut m: String = "unexpected ".to_owned();
    m.append(token.name());
    m
}

/// Whether a dyndep file was read as `w` says.
pub open spec fn read_as(
    r: Result<DyndepFile, Error>,
    t: StateView,
    w: Result<(StateView, Entries), Halt>,
) -> bool {
    match (r, w) {
        (Ok(f), Ok((s, v))) => f@ == v && t == s && in_order(v) && entries_ok(v, s),
        (Err(e), Err(f)) => e@ == f.error && t == f.state,
        _ => false,
    }
}

/// Parse dyndep text that has already been read.
#[verifier::rlimit(50)]
pub fn parse_dyndep_text(state: &mut State, filename: &str, input: &[u8]) -> (r: Result<
    DyndepFile,
    Error,
>)
    requires
        old(state).wf(),
    ensures
        final(state).wf(),
        only_grown(old(state)@, final(state)@),
        read_as(r, final(state)@, dyndep_text(old(state)@, filename@, input@)),
{
    let ghost want = dyndep_text(state@, filename@, input@);
    let mut lexer = Lexer::new(filename.to_owned(), input);
    let mut ddf = DyndepFile { entries: Vec::new() };
    assert(ddf@ =~= Seq::empty());
    let mut versioned: bool = false;
    loop
        invariant
            state.wf(),
            only_grown(old(state)@, state@),
            lexer@.wf(),
            lexer@.input == input@,
            in_order(ddf@),
            entries_ok(ddf@, state@),
            want == dyndep_text(old(state)@, filename@, input@),
            dyndep_lines(state@, ddf@, versioned, lexer@) == want,
        decreases input@.len() - lexer@.ofs,
    {
        let ghost l = lexer@;
        proof {
            lemma_after_token(l);
        }
        let token = lexer.read_token();
        match token {
            Token::Build => {
                if !versioned {
                    return Err(lexer.error("expected 'ninja_dyndep_version = ...'"));
                }
                match parse_edge(state, &mut lexer, &mut ddf) {
                    Err(e) => {
                        return Err(e);
                    },
                    Ok(_) => {},
                }
            },
            Token::Ident => {
                lexer.unread_token();
                if versioned {
                    return Err(lexer.error(unexpected(token).as_str()));
                }
                match parse_dyndep_version(&mut lexer) {
                    Err(e) => {
                        return Err(e);
                    },
                    Ok(_) => {},
                }
                versioned = true;
            },
            Token::Error => {
                let m = lexer.describe_last_error();
                return Err(lexer.error(m.as_str()));
            },
            Token::Eof => {
                if !versioned {
                    return Err(lexer.error("expected 'ninja_dyndep_version = ...'"));
                }
                return Ok(ddf);
            },
            Token::Newline => {},
            other => {
                return Err(lexer.error(unexpected(other).as_str()));
            },
        }
    }
}

/// What the dyndep file at `path` says.
pub open spec fn dyndep_file<D: DiskInterface>(s: StateView, m: D::Model, path: Seq<char>) -> Result<
    (StateView, Entries),
    Halt,
> {
    match D::content_of(m, path) {
        Err(e) => halted(e, s),
        Ok(None) => halted(
            ErrorView::Manifest("loading '"@ + path + "': No such file or directory"@),
            s,
        ),
        Ok(Some(c)) => dyndep_text(s, path, c),
    }
}

/// Parse the dyndep file at `path`, creating any new nodes in `state`.
pub fn parse_dyndep_file<D: DiskInterface>(state: &mut State, disk: &D, path: &str) -> (r: Result<
    DyndepFile,
    Error,
>)
    requires
        old(state).wf(),
    ensures
        final(state).wf(),
        only_grown(old(state)@, final(state)@),
        read_as(r, final(state)@, dyndep_file::<D>(old(state)@, disk.model(), path@)),
{
    match disk.read_file(path) {
        Err(e) => Err(e),
        Ok(None) => Err(
            Error::Manifest(quoted("loading '", path, "': No such file or directory")),
        ),
        Ok(Some(c)) => parse_dyndep_text(state, path, c.as_slice()),
    }
}

/// The first node from the `k`-th on that some edge already makes.
pub open spec fn first_made(s: StateView, nodes: Seq<NodeId>, k: int) -> Option<NodeId>
    decreases nodes.len() - k,
{
    if 0 <= k < nodes.len() {
        if s.nodes[nodes[k].0 as int].in_edge is Some {
            Some(nodes[k])
        } else {
            first_made(s, nodes, k + 1)
        }
    } else {
        None
    }
}

/// The graph with the nodes from the `k`-th on as implicit outputs of `edge`.
pub open spec fn outputs_connected(s: StateView, edge: EdgeId, nodes: Seq<NodeId>, k: int) -> StateView
    decreases nodes.len() - k,
{
    if 0 <= k < nodes.len() {
        outputs_connected(s.output_connected(edge, nodes[k]), edge, nodes, k + 1)
    } else {
        s
    }
}

/// The graph with the new dependencies of `edge`, or what is wrong with them.
pub open spec fn edge_updated(s: StateView, edge: EdgeId, d: DyndepsView) -> Result<
    StateView,
    Halt,
> {
    let i = edge.0 as int;
    let s1 = if d.restat {
        s.with_edge(i, EdgeView { dyndep_restat: true, ..s.edges[i] })
    } else {
        s
    };
    match first_made(s1, d.implicit_outputs, 0) {
        Some(n) => halted(
            ErrorView::Build("multiple rules generate "@ + s1.nodes[n.0 as int].path),
            s1,
        ),
        None => Ok(
            outputs_connected(s1, edge, d.implicit_outputs, 0).inputs_spliced(
                edge,
                d.implicit_inputs,
                0,
            ),
        ),
    }
}

/// The path of the first output of `edge`.
pub open spec fn first_output(s: StateView, edge: EdgeId) -> Seq<char> {
    let e = s.edges[edge.0 as int];
    if e.outputs.len() > 0 {
        s.nodes[e.outputs[0].0 as int].path
    } else {
        Seq::empty()
    }
}

/// The graph after the entries have been applied to those of the edges from
/// the `k`-th on that take them from the file `node`.
pub open spec fn edges_updated(
    s: StateView,
    v: Entries,
    node: NodeId,
    path: Seq<char>,
    edges: Seq<EdgeId>,
    k: int,
) -> Result<(StateView, Entries), Halt>
    decreases edges.len() - k,
{
    if 0 <= k < edges.len() {
        let edge = edges[k];
        let p = place(v, edge, 0);
        if s.edges[edge.0 as int].dyndep != Some(node) {
            edges_updated(s, v, node, path, edges, k + 1)
        } else if !has_entry(v, edge) {
            halted(
                ErrorView::Build(
                    "'"@ + first_output(s, edge) + "' not mentioned in its dyndep file '"@ + path
                        + "'"@,
                ),
                s,
            )
        } else {
            match edge_updated(s, edge, v[p].1) {
                Err(e) => Err(e),
                Ok(t) => edges_updated(
                    t,
                    v.update(p, (edge, DyndepsView { used: true, ..v[p].1 })),
                    node,
                    path,
                    edges,
                    k + 1,
                ),
            }
        }
    } else {
        Ok((s, v))
    }
}

/// The first edge from the `k`-th entry on that did not ask for it.
pub open spec fn first_unused(v: Entries, k: int) -> Option<EdgeId>
    decreases v.len() - k,
{
    if 0 <= k < v.len() {
        if v[k].1.used {
            first_unused(v, k + 1)
        } else {
            Some(v[k].0)
        }
    } else {
        None
    }
}

/// What loading the dyndep file `node` makes of the graph.
pub open spec fn dyndeps_loaded<D: DiskInterface>(s: StateView, m: D::Model, node: NodeId) -> Result<
    (StateView, Entries),
    Halt,
> {
    let i = node.0 as int;
    let path = s.nodes[i].path;
    let s1 = s.with_node(i, NodeView { dyndep_pending: false, ..s.nodes[i] });
    match dyndep_file::<D>(s1, m, path) {
        Err(e) => Err(e),
        Ok((s2, v)) => match edges_updated(s2, v, node, path, s2.nodes[i].out_edges, 0) {
            Err(e) => Err(e),
            Ok((s3, w)) => match first_unused(w, 0) {
                Some(edge) => halted(
                    ErrorView::Build(
                        "dyndep file '"@ + path + "' mentions output '"@ + first_output(s3, edge)
                            + "' whose build statement does not have a dyndep binding for the file"@,
                    ),
                    s3,
                ),
                None => Ok((s3, w)),
            },
        },
    }
}

/// Whether nothing has gone: nodes keep their producers, and edges their
/// inputs, outputs, pools and weights.
pub open spec fn links_kept(s: StateView, t: StateView) -> bool {
    &&& s.nodes.len() <= t.nodes.len()
    &&& s.edges.len() == t.edges.len()
    &&& s.pools == t.pools
    &&& forall|i: int|
        0 <= i < s.nodes.len() && s.nodes[i].in_edge is Some ==> (#[trigger] t.nodes[i]).in_edge
            == s.nodes[i].in_edge
    &&& forall|i: int|
        0 <= i < s.edges.len() ==> s.edges[i].inputs.len() <= (#[trigger] t.edges[i]).inputs.len()
            && s.edges[i].outputs.len() <= t.edges[i].outputs.len() && t.edges[i].pool
            == s.edges[i].pool && t.edges[i].critical_path_weight
            == s.edges[i].critical_path_weight
}

/// Whether, beyond that, the marks of edges are as they were.
pub open spec fn marks_kept(s: StateView, t: StateView) -> bool {
    &&& links_kept(s, t)
    &&& forall|i: int| 0 <= i < s.edges.len() ==> (#[trigger] t.edges[i]).mark == s.edges[i].mark
}

proof fn lemma_inputs_spliced_kept(s: StateView, edge: EdgeId, nodes: Seq<NodeId>, k: int)
    requires
        edge.0 < s.edges.len(),
        nodes_below(nodes, s.nodes.len()),
        0 <= k,
    ensures
        marks_kept(s, s.inputs_spliced(edge, nodes, k)),
        s.inputs_spliced(edge, nodes, k).nodes.len() == s.nodes.len(),
    decreases nodes.len() - k,
{
    if k < nodes.len() {
        lemma_inputs_spliced_kept(s.input_spliced(edge, nodes[k]), edge, nodes, k + 1);
    }
}

fn set_restat(state: &mut State, edge: EdgeId)
    requires
        old(state).wf(),
        edge.0 < old(state)@.edges.len(),
    ensures
        final(state).wf(),
        final(state)@ == old(state)@.with_edge(
            edge.0 as int,
            EdgeView { dyndep_restat: true, ..old(state)@.edges[edge.0 as int] },
        ),
{
    let ghost s = state@;
    proof {
        state.lemma_wf();
        assert(s.edge_ok(s.edges[edge.0 as int]));
    }
    state.edge_mut(edge).dyndep_restat = true;
    proof {
        let e = state@.edges[edge.0 as int];
        lemma_edge_update(s, edge.0 as int, e);
    }
}

fn update_edge(state: &mut State, edge: EdgeId, d: &Dyndeps) -> (r: Result<(), Error>)
    requires
        old(state).wf(),
        edge.0 < old(state)@.edges.len(),
        entry_ok(d@, old(state)@),
    ensures
        final(state).wf(),
        final(state)@.nodes.len() == old(state)@.nodes.len(),
        marks_kept(old(state)@, final(state)@),
        match (r, edge_updated(old(state)@, edge, d@)) {
            (Ok(_), Ok(s)) => final(state)@ == s,
            (Err(e), Err(f)) => e@ == f.error && final(state)@ == f.state,
            _ => false,
        },
{
    let ghost s0 = state@;
    if d.restat {
        set_restat(state, edge);
    }
    let ghost s1 = state@;
    let outs = d.implicit_outputs.as_slice();
    let mut k: usize = 0;
    while k < outs.len()
        invariant
            k <= outs@.len(),
            state.wf(),
            state@ == s1,
            nodes_below(outs@, s1.nodes.len()),
            s1.nodes.len() == old(state)@.nodes.len(),
            marks_kept(old(state)@, s1),
            outs@ == d@.implicit_outputs,
            s1 == if d.restat {
                old(state)@.with_edge(
                    edge.0 as int,
                    EdgeView { dyndep_restat: true, ..old(state)@.edges[edge.0 as int] },
                )
            } else {
                old(state)@
            },
            first_made(s1, outs@, k as int) == first_made(s1, outs@, 0),
            forall|j: int|
                0 <= j < k ==> s1.nodes[(#[trigger] outs@[j]).0 as int].in_edge is None,
        decreases outs@.len() - k,
    {
        if state.node(outs[k]).in_edge().is_some() {
            let mut m: String = "multiple rules generate ".to_owned();
            m.append(state.node(outs[k]).path());
            return Err(Error::Build(m));
        }
        k += 1;
    }
    let mut i: usize = 0;
    while i < outs.len()
        invariant
            i <= outs@.len(),
            state.wf(),
            edge.0 < state@.edges.len(),
            state@.nodes.len() == s1.nodes.len(),
            marks_kept(s1, state@),
            nodes_below(outs@, s1.nodes.len()),
            forall|j: int|
                0 <= j < outs@.len() ==> {
                    let p = state@.nodes[(#[trigger] outs@[j]).0 as int].in_edge;
                    p is None || p == Some(edge)
                },
            outputs_connected(state@, edge, outs@, i as int) == outputs_connected(
                s1,
                edge,
                outs@,
                0,
            ),
        decreases outs@.len() - i,
    {
        state.connect_output(edge, outs[i]);
        i += 1;
    }
    proof {
        lemma_inputs_spliced_kept(state@, edge, d.implicit_inputs@, 0);
    }
    state.splice_inputs(edge, d.implicit_inputs.as_slice());
    Ok(())
}

fn first_output_path(state: &State, edge: EdgeId) -> (r: String)
    requires
        state.wf(),
        edge.0 < state@.edges.len(),
    ensures
        r@ == first_output(state@, edge),
{
    proof {
        state.lemma_wf();
        assert(state@.edge_ok(state@.edges[edge.0 as int]));
    }
    let outs = state.edge(edge).outputs();
    if outs.len() > 0 {
        state.node(outs[0]).path_shared()
    } else {
        let r = String::new();
        assert(r@ =~= Seq::<char>::empty());
        r
    }
}

fn clear_pending(state: &mut State, node: NodeId)
    requires
        old(state).wf(),
        node.0 < old(state)@.nodes.len(),
    ensures
        final(state).wf(),
        final(state)@ == old(state)@.with_node(
            node.0 as int,
            NodeView { dyndep_pending: false, ..old(state)@.nodes[node.0 as int] },
        ),
{
    let ghost s = state@;
    proof {
        state.lemma_wf();
        assert(s.node_ok(s.nodes[node.0 as int]));
    }
    state.node_mut(node).dyndep_pending = false;
    proof {
        lemma_node_update(s, node.0 as int, state@.nodes[node.0 as int]);
    }
}

fn update_edges(state: &mut State, ddf: &mut DyndepFile, node: NodeId, path: &str) -> (r: Result<
    (),
    Error,
>)
    requires
        old(state).wf(),
        node.0 < old(state)@.nodes.len(),
        in_order(old(ddf)@),
        entries_ok(old(ddf)@, old(state)@),
    ensures
        final(state).wf(),
        marks_kept(old(state)@, final(state)@),
        in_order(final(ddf)@),
        entries_ok(final(ddf)@, final(state)@),
        match (
            r,
            edges_updated(
                old(state)@,
                old(ddf)@,
                node,
                path@,
                old(state)@.nodes[node.0 as int].out_edges,
                0,
            ),
        ) {
            (Ok(_), Ok((s, v))) => final(state)@ == s && final(ddf)@ == v,
            (Err(e), Err(f)) => e@ == f.error && final(state)@ == f.state,
            _ => false,
        },
{
    proof {
        state.lemma_wf();
        assert(state@.node_ok(state@.nodes[node.0 as int]));
    }
    let ghost edges = state@.nodes[node.0 as int].out_edges;
    let ghost want = edges_updated(state@, ddf@, node, path@, edges, 0);
    let out_edges: Vec<EdgeId> = vstd::slice::slice_to_vec(state.node(node).out_edges());
    let mut k: usize = 0;
    while k < out_edges.len()
        invariant
            k <= out_edges@.len(),
            out_edges@ == edges,
            state.wf(),
            state@.nodes.len() == old(state)@.nodes.len(),
            marks_kept(old(state)@, state@),
            in_order(ddf@),
            entries_ok(ddf@, state@),
            crate::state::edges_below(edges, state@.edges.len()),
            edges == old(state)@.nodes[node.0 as int].out_edges,
            want == edges_updated(old(state)@, old(ddf)@, node, path@, edges, 0),
            edges_updated(state@, ddf@, node, path@, edges, k as int) == want,
        decreases out_edges@.len() - k,
    {
        let edge = out_edges[k];
        let ghost v0 = ddf@;
        let ghost s0 = state@;
        assert(edge == edges[k as int]);
        if state.edge(edge).dyndep() == Some(node) {
            let p: usize = find_place(&ddf.entries, edge);
            if p >= ddf.entries.len() || ddf.entries[p].0 != edge {
                let out: String = first_output_path(state, edge);
                let mut m: String = quoted("'", out.as_str(), "' not mentioned in its dyndep file '");
                m.append(path);
                m.append("'");
                return Err(Error::Build(m));
            }
            assert(v0[p as int] == (ddf.entries@[p as int].0, ddf.entries@[p as int].1@));
            match update_edge(state, edge, &ddf.entries[p].1) {
                Err(e) => {
                    proof {
                        lemma_entries_ok(ddf@, s0, state@);
                    }
                    return Err(e);
                },
                Ok(_) => {},
            }
            ddf.entries[p].1.used = true;
            proof {
                let w = v0.update(p as int, (edge, DyndepsView { used: true, ..v0[p as int].1 }));
                assert(ddf@ =~= w);
                lemma_entries_ok(v0, s0, state@);
                assert forall|i: int| 0 <= i < w.len() implies (#[trigger] w[i]).0.0
                    < state@.edges.len() && entry_ok(w[i].1, state@) by {
                    assert(entry_ok(v0[i].1, state@));
                }
                assert forall|i: int, j: int| 0 <= i < j < w.len() implies (#[trigger] w[i]).0.0 < (
                #[trigger] w[j]).0.0 by {
                    assert(v0[i].0.0 < v0[j].0.0);
                }
            }
        }
        k += 1;
    }
    Ok(())
}

proof fn lemma_entries_ok(v: Entries, s: StateView, t: StateView)
    requires
        entries_ok(v, s),
        marks_kept(s, t),
    ensures
        entries_ok(v, t),
{
    assert forall|i: int| 0 <= i < v.len() implies (#[trigger] v[i]).0.0 < t.edges.len() && entry_ok(
        v[i].1,
        t,
    ) by {
        assert(entry_ok(v[i].1, s));
    }
}

/// Load the dyndep file named by `node` and apply it to the edges that declare
/// it, returning what was loaded so the build plan can be updated.
pub fn load_dyndeps<D: DiskInterface>(state: &mut State, disk: &D, node: NodeId) -> (r: Result<
    DyndepFile,
    Error,
>)
    requires
        old(state).wf(),
        node.0 < old(state)@.nodes.len(),
    ensures
        final(state).wf(),
        marks_kept(old(state)@, final(state)@),
        read_as(r, final(state)@, dyndeps_loaded::<D>(old(state)@, disk.model(), node)),
{
    clear_pending(state, node);
    let path: String = state.node(node).path_shared();
    let mut ddf = match parse_dyndep_file(state, disk, path.as_str()) {
        Err(e) => {
            return Err(e);
        },
        Ok(f) => f,
    };
    match update_edges(state, &mut ddf, node, path.as_str()) {
        Err(e) => {
            return Err(e);
        },
        Ok(_) => {},
    }
    // Every statement in the file must belong to an edge that asked for it.
    let mut k: usize = 0;
    while k < ddf.entries.len()
        invariant
            k <= ddf.entries@.len(),
            state.wf(),
            entries_ok(ddf@, state@),
            marks_kept(old(state)@, state@),
            path@ == old(state)@.nodes[node.0 as int].path,
            first_unused(ddf@, k as int) == first_unused(ddf@, 0),
            match dyndeps_loaded::<D>(old(state)@, disk.model(), node) {
                Ok((s, w)) => first_unused(ddf@, 0) is None && s == state@ && w == ddf@,
                Err(f) => first_unused(ddf@, 0) matches Some(edge) && f.state == state@ && f.error
                    == ErrorView::Build(
                    "dyndep file '"@ + path@ + "' mentions output '"@ + first_output(state@, edge)
                        + "' whose build statement does not have a dyndep binding for the file"@,
                ),
            },
        decreases ddf.entries@.len() - k,
    {
        assert(ddf@[k as int] == (ddf.entries@[k as int].0, ddf.entries@[k as int].1@));
        if !ddf.entries[k].1.used {
            let out: String = first_output_path(state, ddf.entries[k].0);
            let mut m: String = quoted("dyndep file '", path.as_str(), "' mentions output '");
            m.append(out.as_str());
            m.append("' whose build statement does not have a dyndep binding for the file");
            return Err(Error::Build(m));
        }
        k += 1;
    }
    Ok(ddf)
}

/// The graph that loading the dyndep file `node` leaves, whether or not it can
/// be loaded.
pub open spec fn dyndeps_tried<D: DiskInterface>(s: StateView, m: D::Model, node: NodeId) -> StateView {
    match dyndeps_loaded::<D>(s, m, node) {
        Ok((t, _)) => t,
        Err(f) => f.state,
    }
}

/// The graph after the dyndep files that edges wait for have been loaded, from
/// the edge at place `k` of `n` on. A file that cannot be loaded is passed over.
pub open spec fn pending_loaded<D: DiskInterface>(m: D::Model, s: StateView, k: int, n: nat) -> StateView
    decreases n - k,
{
    if 0 <= k < n {
        let t = match s.edges[k].dyndep {
            Some(d) => if s.nodes[d.0 as int].dyndep_pending {
                dyndeps_tried::<D>(s, m, d)
            } else {
                s
            },
            None => s,
        };
        pending_loaded::<D>(m, t, k + 1, n)
    } else {
        s
    }
}

/// The graph after every dyndep file that edges wait for has been loaded.
pub open spec fn all_loaded<D: DiskInterface>(m: D::Model, s: StateView) -> StateView {
    pending_loaded::<D>(m, s, 0, s.edges.len())
}

/// Load every dyndep file that edges wait for, so that the whole graph is seen.
/// A file that cannot be loaded is passed over.
pub fn load_all_dyndeps<D: DiskInterface>(state: &mut State, disk: &D)
    requires
        old(state).wf(),
    ensures
        final(state).wf(),
        marks_kept(old(state)@, final(state)@),
        final(state)@ == all_loaded::<D>(disk.model(), old(state)@),
{
    let ghost m = disk.model();
    let ghost s0 = state@;
    let n: usize = state.edge_count();
    let mut k: usize = 0;
    while k < n
        invariant
            k <= n,
            m == disk.model(),
            s0 == old(state)@,
            state.wf(),
            n == state@.edges.len(),
            n == s0.edges.len(),
            marks_kept(s0, state@),
            pending_loaded::<D>(m, state@, k as int, n as nat) == all_loaded::<D>(m, s0),
        decreases n - k,
    {
        let ghost s1 = state@;
        proof {
            state.lemma_wf();
            assert(state@.edge_ok(state@.edges[k as int]));
        }
        if let Some(d) = state.edge(EdgeId(k)).dyndep() {
            if state.node(d).dyndep_pending {
                let _ = load_dyndeps(state, disk, d);
                proof {
                    assert(marks_kept(s0, state@));
                }
            }
        }
        k += 1;
    }
}

proof fn lemma_none_made(s: StateView, nodes: Seq<NodeId>, k: int)
    requires
        0 <= k <= nodes.len(),
    ensures
        first_made(s, nodes, k) is None ==> forall|j: int|
            k <= j < nodes.len() ==> s.nodes[(#[trigger] nodes[j]).0 as int].in_edge is None,
        first_made(s, nodes, k) is Some ==> exists|j: int|
            k <= j < nodes.len() && s.nodes[(#[trigger] nodes[j]).0 as int].in_edge is Some,
    decreases nodes.len() - k,
{
    if k < nodes.len() {
        if s.nodes[nodes[k].0 as int].in_edge is None {
            lemma_none_made(s, nodes, k + 1);
        }
    }
}

proof fn lemma_outputs_joined(s: StateView, edge: EdgeId, nodes: Seq<NodeId>, k: int)
    requires
        edge.0 < s.edges.len(),
        nodes_below(nodes, s.nodes.len()),
        0 <= k <= nodes.len(),
    ensures
        ({
            let t = outputs_connected(s, edge, nodes, k);
            let a = s.edges[edge.0 as int];
            let b = t.edges[edge.0 as int];
            &&& b.outputs == a.outputs + nodes.skip(k)
            &&& b.inputs == a.inputs
            &&& b.order_only_deps == a.order_only_deps
            &&& b.dyndep_restat == a.dyndep_restat
            &&& b.rule == a.rule
            &&& t.nodes.len() == s.nodes.len()
            &&& t.edges.len() == s.edges.len()
            &&& forall|e: int| 0 <= e < s.edges.len() && e != edge.0 ==> #[trigger] t.edges[e]
                == s.edges[e]
            &&& forall|n: int|
                0 <= n < s.nodes.len() ==> (#[trigger] t.nodes[n]).path == s.nodes[n].path && (
                t.nodes[n].in_edge == s.nodes[n].in_edge || t.nodes[n].in_edge == Some(edge))
            &&& forall|n: int|
                0 <= n < s.nodes.len() && !nodes.contains(NodeId(n as usize)) && n <= usize::MAX
                    ==> (#[trigger] t.nodes[n]).in_edge == s.nodes[n].in_edge
            &&& forall|j: int|
                k <= j < nodes.len() ==> t.nodes[(#[trigger] nodes[j]).0 as int].in_edge == Some(
                    edge,
                )
        }),
    decreases nodes.len() - k,
{
    let a = s.edges[edge.0 as int];
    if k < nodes.len() {
        let u = s.output_connected(edge, nodes[k]);
        lemma_outputs_joined(u, edge, nodes, k + 1);
        let t = outputs_connected(s, edge, nodes, k);
        let b = t.edges[edge.0 as int];
        assert(b.outputs =~= a.outputs + nodes.skip(k));
        assert(nodes.contains(nodes[k]));
        assert forall|j: int| k <= j < nodes.len() implies t.nodes[(
        #[trigger] nodes[j]).0 as int].in_edge == Some(edge) by {
            if j == k {
                assert(u.nodes[nodes[k].0 as int].in_edge == Some(edge));
                assert(t.nodes[nodes[k].0 as int].path == u.nodes[nodes[k].0 as int].path);
            }
        }
        assert forall|n: int| 0 <= n < s.nodes.len() implies (#[trigger] t.nodes[n]).path
            == s.nodes[n].path && (t.nodes[n].in_edge == s.nodes[n].in_edge || t.nodes[n].in_edge
            == Some(edge)) by {
            assert(u.nodes[n].path == s.nodes[n].path);
        }
        assert forall|n: int|
            0 <= n < s.nodes.len() && !nodes.contains(NodeId(n as usize)) && n
                <= usize::MAX implies (#[trigger] t.nodes[n]).in_edge == s.nodes[n].in_edge by {
            assert(NodeId(nodes[k].0 as int as usize) == nodes[k]);
            assert(u.nodes[n] == s.nodes[n]);
        }
    } else {
        assert(a.outputs + nodes.skip(k) =~= a.outputs);
    }
}

/// A dyndep file adds to an edge what it says of it: the outputs, which nothing
/// makes before, behind those that the edge has; the inputs behind those that
/// matter and before those that only order it; and that it may leave its outputs
/// alone. It takes nothing away, and changes no other edge. Where one of the outputs
/// is made already, it is refused.
pub proof fn law_dyndeps_are_added(s: StateView, edge: EdgeId, d: DyndepsView)
    requires
        edge.0 < s.edges.len(),
        nodes_below(d.implicit_outputs, s.nodes.len()),
        nodes_below(d.implicit_inputs, s.nodes.len()),
        s.edges[edge.0 as int].order_only_deps <= s.edges[edge.0 as int].inputs.len(),
    ensures
        match edge_updated(s, edge, d) {
            Ok(t) => {
                let a = s.edges[edge.0 as int];
                let b = t.edges[edge.0 as int];
                &&& b.outputs == a.outputs + d.implicit_outputs
                &&& b.inputs.take(b.first_order_only()) == a.inputs.take(a.first_order_only())
                    + d.implicit_inputs
                &&& b.inputs.skip(b.first_order_only()) == a.inputs.skip(a.first_order_only())
                &&& b.dyndep_restat == (a.dyndep_restat || d.restat)
                &&& b.rule == a.rule
                &&& forall|j: int|
                    0 <= j < d.implicit_outputs.len() ==> s.nodes[(
                    #[trigger] d.implicit_outputs[j]).0 as int].in_edge is None
                        && t.nodes[d.implicit_outputs[j].0 as int].in_edge == Some(edge)
                &&& forall|e: int| 0 <= e < s.edges.len() && e != edge.0 ==> #[trigger] t.edges[e]
                    == s.edges[e]
                &&& t.nodes.len() == s.nodes.len()
                &&& forall|n: int|
                    0 <= n < s.nodes.len() ==> (#[trigger] t.nodes[n]).path == s.nodes[n].path
                &&& forall|n: int|
                    0 <= n < s.nodes.len() && !d.implicit_outputs.contains(NodeId(n as usize)) && n
                        <= usize::MAX ==> (#[trigger] t.nodes[n]).in_edge == s.nodes[n].in_edge
            },
            Err(_) => exists|j: int|
                0 <= j < d.implicit_outputs.len() && s.nodes[(
                #[trigger] d.implicit_outputs[j]).0 as int].in_edge is Some,
        },
{
    let i = edge.0 as int;
    let s1 = if d.restat {
        s.with_edge(i, EdgeView { dyndep_restat: true, ..s.edges[i] })
    } else {
        s
    };
    lemma_none_made(s1, d.implicit_outputs, 0);
    if let Ok(t) = edge_updated(s, edge, d) {
        lemma_outputs_joined(s1, edge, d.implicit_outputs, 0);
        let u = outputs_connected(s1, edge, d.implicit_outputs, 0);
        assert(d.implicit_outputs.skip(0) =~= d.implicit_outputs);
        assert(d.implicit_inputs.skip(0) =~= d.implicit_inputs);
        crate::scan::lemma_spliced_in(u, edge, d.implicit_inputs, 0);
        lemma_spliced_rest(u, edge, d.implicit_inputs, 0);
    } else {
        let j = choose|j: int|
            0 <= j < d.implicit_outputs.len() && s1.nodes[(
            #[trigger] d.implicit_outputs[j]).0 as int].in_edge is Some;
        assert(s.nodes[d.implicit_outputs[j].0 as int].in_edge is Some);
    }
}

proof fn lemma_spliced_rest(s: StateView, edge: EdgeId, nodes: Seq<NodeId>, k: int)
    requires
        edge.0 < s.edges.len(),
        nodes_below(nodes, s.nodes.len()),
        0 <= k,
    ensures
        ({
            let t = s.inputs_spliced(edge, nodes, k);
            let a = s.edges[edge.0 as int];
            let b = t.edges[edge.0 as int];
            &&& b.outputs == a.outputs
            &&& b.rule == a.rule
            &&& b.dyndep_restat == a.dyndep_restat
            &&& t.nodes.len() == s.nodes.len()
            &&& t.edges.len() == s.edges.len()
            &&& forall|e: int| 0 <= e < s.edges.len() && e != edge.0 ==> #[trigger] t.edges[e]
                == s.edges[e]
            &&& forall|n: int|
                0 <= n < s.nodes.len() ==> (#[trigger] t.nodes[n]).in_edge == s.nodes[n].in_edge
        }),
    decreases nodes.len() - k,
{
    if k < nodes.len() {
        lemma_spliced_rest(s.input_spliced(edge, nodes[k]), edge, nodes, k + 1);
    }
}

} // verus!
