//! The `.ninja` manifest parser.

use vstd::prelude::*;
use vstd::string::*;

use crate::canon::canonicalize_path;
use crate::disk::DiskInterface;
use crate::error::Error;
use crate::eval::{root_scope, EvalString, Rule, RuleId, ScopeId};
use crate::lexer::{Lexer, Token};
use crate::state::{EdgeId, NodeId, Pool, PoolId, State};
use crate::text::{parse_leading_int, str_eq};
use crate::version::check_required_version;

verus! {

use crate::canon::canonical;
use crate::disk::Outcome;
use crate::error::{error_text, ErrorView};
use crate::eval::{
    bound_value, is_reserved, with_binding, with_text, with_var, RuleView, ScopesView, TokView,
};
use crate::graph::at_rest;
use crate::lexer::{behind_blanks, can_be_written, is_at, is_ordinary, is_word_byte, law_strings_read_back, lemma_behind_blanks, lemma_is_at, lemma_string_at, lemma_token_at, lexing_error, literal_byte, name_byte, part_written, parts_written, simple_name_byte, space, string_at, token_at, token_name, with_parts, LexerView, Part};
use crate::state::{
    lemma_edge_update, lemma_node_update, nodes_below, EdgeView, Escape, NodeView, PoolView,
    StateView,
};
use crate::text::{leading_int, lemma_scan, scan, texts, utf8_lossy};
use crate::version::required_version_verdict;

/// What to do about build statements of the form `build a: phony ... a ...`,
/// which old generators emitted.
#[derive(Copy, Clone, PartialEq, Eq, Structural, Debug)]
pub enum PhonyCycleAction {
    /// Drop the self-reference and warn.
    Warn,
    /// Treat it as an error.
    Error,
}

/// Parser configuration.
#[derive(Copy, Clone, Debug)]
pub struct ParserOptions {
    /// How to treat self-referencing phony edges.
    pub phony_cycle_action: PhonyCycleAction,
    /// Suppress warnings (used by tests).
    pub quiet: bool,
}

impl Default for ParserOptions {
    fn default() -> (r: ParserOptions)
        ensures
            r.phony_cycle_action == PhonyCycleAction::Warn,
            !r.quiet,
    {
        ParserOptions { phony_cycle_action: PhonyCycleAction::Warn, quiet: false }
    }
}

/// The files a manifest can read.
pub type Files = spec_fn(Seq<char>) -> Outcome<Option<Seq<u8>>>;

/// What a manifest has declared so far: the graph, and the warnings.
pub struct Parsed {
    pub state: StateView,
    pub warnings: Seq<Seq<char>>,
}

/// Where a manifest is wrong: the error, and what had been declared by then.
pub type Stopped = (ErrorView, Parsed);

/// A `key = value` line: the key and the unexpanded value.
pub open spec fn let_at(l: LexerView) -> Result<(Seq<char>, Seq<TokView>, LexerView), ErrorView> {
    match l.ident() {
        None => Err(l.after_ident().error("expected variable name"@)),
        Some(key) => {
            let l1 = l.after_ident();
            let l2 = l1.after_token();
            let v = l2.string(false, Seq::empty());
            if l1.next() != Token::Equals {
                Err(l2.error(l1.unexpected(Token::Equals)))
            } else {
                match v.error {
                    Some(m) => Err(l2.after_string(false).error(m)),
                    None => Ok((key, v.toks, l2.after_string(false))),
                }
            }
        },
    }
}

/// The depth of a pool from its indented lines.
pub open spec fn pool_lines(s: ScopesView, scope: int, l: LexerView, depth: int) -> Result<
    (int, LexerView),
    ErrorView,
>
    decreases l.input.len() - l.ofs,
{
    let l1 = l.after_peek(Token::Indent);
    if l.next() != Token::Indent {
        Ok((depth, l1))
    } else {
        match let_at(l1) {
            Err(e) => Err(e),
            Ok((key, toks, l2)) => {
                let d = leading_int(s.expand(scope, toks));
                if key != "depth"@ {
                    Err(l2.error("unexpected variable '"@ + key + "'"@))
                } else if d < 0 {
                    Err(l2.error("invalid pool depth"@))
                } else if l.ofs < l2.ofs <= l2.input.len() && l2.input == l.input {
                    pool_lines(s, scope, l2, d)
                } else {
                    Ok((d, l2))
                }
            },
        }
    }
}

/// What a `pool` statement declares.
#[verifier::opaque]
pub open spec fn pool_at(p: Parsed, scope: int, l: LexerView) -> Result<
    (Parsed, LexerView),
    Stopped,
> {
    match l.ident() {
        None => Err((l.after_ident().error("expected pool name"@), p)),
        Some(name) => {
            let l1 = l.after_ident();
            let l2 = l1.after_token();
            if l1.next() != Token::Newline {
                Err((l2.error(l1.unexpected(Token::Newline)), p))
            } else if p.state.find_pool(name) is Some {
                Err((l2.error("duplicate pool '"@ + name + "'"@), p))
            } else {
                match pool_lines(p.state.scopes, scope, l2, -1) {
                    Err(e) => Err((e, p)),
                    Ok((depth, l3)) => if depth < 0 {
                        Err((l3.error("expected 'depth =' line"@), p))
                    } else {
                        Ok(
                            (
                                Parsed {
                                    state: StateView {
                                        pools: p.state.pools.push(
                                            PoolView { name, depth: depth as i32, current_use: 0 },
                                        ),
                                        ..p.state
                                    },
                                    ..p
                                },
                                l3,
                            ),
                        )
                    },
                }
            }
        },
    }
}

/// A rule with its indented lines.
pub open spec fn rule_lines(l: LexerView, rule: RuleView) -> Result<(RuleView, LexerView), ErrorView>
    decreases l.input.len() - l.ofs,
{
    let l1 = l.after_peek(Token::Indent);
    if l.next() != Token::Indent {
        Ok((rule, l1))
    } else {
        match let_at(l1) {
            Err(e) => Err(e),
            Ok((key, toks, l2)) => {
                let next = RuleView { bindings: with_binding(rule.bindings, key, toks), ..rule };
                if !is_reserved(key) {
                    Err(l2.error("unexpected variable '"@ + key + "'"@))
                } else if l.ofs < l2.ofs <= l2.input.len() && l2.input == l.input {
                    rule_lines(l2, next)
                } else {
                    Ok((next, l2))
                }
            },
        }
    }
}

/// Whether a rule binds `key` to something that is not empty.
pub open spec fn binds(rule: RuleView, key: Seq<char>) -> bool {
    match bound_value(rule.bindings, key) {
        Some(t) => t.len() > 0,
        None => false,
    }
}

/// What a `rule` statement declares.
#[verifier::opaque]
pub open spec fn rule_at(p: Parsed, scope: int, l: LexerView) -> Result<
    (Parsed, LexerView),
    Stopped,
> {
    match l.ident() {
        None => Err((l.after_ident().error("expected rule name"@), p)),
        Some(name) => {
            let l1 = l.after_ident();
            let l2 = l1.after_token();
            if l1.next() != Token::Newline {
                Err((l2.error(l1.unexpected(Token::Newline)), p))
            } else if p.state.scopes.scopes[scope].rules.contains_key(name) {
                Err((l2.error("duplicate rule '"@ + name + "'"@), p))
            } else {
                match rule_lines(l2, RuleView { name, bindings: Seq::empty(), phony: false }) {
                    Err(e) => Err((e, p)),
                    Ok((rule, l3)) => if binds(rule, "rspfile"@) != binds(
                        rule,
                        "rspfile_content"@,
                    ) {
                        Err((l3.error("rspfile and rspfile_content need to be both specified"@), p))
                    } else if !binds(rule, "command"@) {
                        Err((l3.error("expected 'command =' line"@), p))
                    } else {
                        Ok(
                            (
                                Parsed {
                                    state: StateView {
                                        scopes: p.state.scopes.with_rule(scope, rule),
                                        ..p.state
                                    },
                                    ..p
                                },
                                l3,
                            ),
                        )
                    },
                }
            }
        },
    }
}

/// The graph with the targets of a `default` statement added, `toks` being the
/// one that was read last. Where one is wrong, those before it are added.
pub open spec fn default_targets(
    s: StateView,
    scope: int,
    l: LexerView,
    toks: Seq<TokView>,
) -> Result<(StateView, LexerView), (ErrorView, StateView)>
    decreases l.input.len() - l.ofs,
{
    let path = s.scopes.expand(scope, toks);
    let c = canonical(path);
    if path.len() == 0 {
        Err((l.error("empty path"@), s))
    } else {
        match s.find_node(c) {
            None => Err((l.error("unknown target '"@ + c + "'"@), s)),
            Some(n) => {
                let t = StateView { defaults: s.defaults.push(n), ..s };
                let next = l.string(true, Seq::empty());
                let l1 = l.after_string(true);
                match next.error {
                    Some(m) => Err((l1.error(m), t)),
                    None => if next.toks.len() == 0 {
                        Ok((t, l1))
                    } else if l.ofs < l1.ofs <= l1.input.len() {
                        default_targets(t, scope, l1, next.toks)
                    } else {
                        Ok((t, l1))
                    },
                }
            },
        }
    }
}

/// What a `default` statement declares.
#[verifier::opaque]
pub open spec fn default_at(p: Parsed, scope: int, l: LexerView) -> Result<
    (Parsed, LexerView),
    Stopped,
> {
    let first = l.string(true, Seq::empty());
    let l1 = l.after_string(true);
    match first.error {
        Some(m) => Err((l1.error(m), p)),
        None => if first.toks.len() == 0 {
            Err((l1.error("expected target name"@), p))
        } else {
            match default_targets(p.state, scope, l1, first.toks) {
                Err((e, s)) => Err((e, Parsed { state: s, ..p })),
                Ok((s, l2)) => {
                    let l3 = l2.after_token();
                    if l2.next() != Token::Newline {
                        Err((l3.error(l2.unexpected(Token::Newline)), Parsed { state: s, ..p }))
                    } else {
                        Ok((Parsed { state: s, ..p }, l3))
                    }
                },
            }
        },
    }
}

/// Unexpanded paths.
pub type PathToks = Seq<Seq<TokView>>;

/// `acc` with the paths that follow, up to a delimiter.
pub open spec fn paths_at(l: LexerView, acc: PathToks) -> Result<(PathToks, LexerView), ErrorView>
    decreases l.input.len() - l.ofs,
{
    let s = l.string(true, Seq::empty());
    let l1 = l.after_string(true);
    match s.error {
        Some(m) => Err(l1.error(m)),
        None => if s.toks.len() == 0 {
            Ok((acc, l1))
        } else if l.ofs < l1.ofs <= l1.input.len() {
            paths_at(l1, acc.push(s.toks))
        } else {
            Ok((acc.push(s.toks), l1))
        },
    }
}

/// `acc` with the paths that follow the delimiter `t`, if it is there.
pub open spec fn paths_behind(l: LexerView, t: Token, acc: PathToks) -> Result<
    (PathToks, LexerView),
    ErrorView,
> {
    if l.next() == t {
        paths_at(l.after_peek(t), acc)
    } else {
        Ok((acc, l.after_peek(t)))
    }
}

/// The first line of a `build` statement.
pub struct Header {
    pub outs: PathToks,
    pub implicit_outs: int,
    pub rule: RuleId,
    pub ins: PathToks,
    pub implicit: int,
    pub order_only: int,
    pub validations: PathToks,
}

/// The outputs of a `build` statement, with the number of explicit ones.
pub open spec fn outs_at(l: LexerView) -> Result<(PathToks, int, LexerView), ErrorView> {
    match paths_at(l, Seq::empty()) {
        Err(e) => Err(e),
        Ok((explicit, l1)) => match paths_behind(l1, Token::Pipe, explicit) {
            Err(e) => Err(e),
            Ok((outs, l2)) => Ok((outs, explicit.len() as int, l2)),
        },
    }
}

/// The inputs and validations of a `build` statement, with the numbers of
/// explicit and of explicit and implicit inputs.
pub open spec fn ins_at(l: LexerView) -> Result<
    (PathToks, int, int, PathToks, LexerView),
    ErrorView,
> {
    match paths_at(l, Seq::empty()) {
        Err(e) => Err(e),
        Ok((explicit, l1)) => match paths_behind(l1, Token::Pipe, explicit) {
            Err(e) => Err(e),
            Ok((implicit, l2)) => match paths_behind(l2, Token::Pipe2, implicit) {
                Err(e) => Err(e),
                Ok((ins, l3)) => match paths_behind(l3, Token::PipeAt, Seq::empty()) {
                    Err(e) => Err(e),
                    Ok((validations, l4)) => Ok(
                        (ins, explicit.len() as int, implicit.len() as int, validations, l4),
                    ),
                },
            },
        },
    }
}

/// The first line of a `build` statement: outputs, rule, inputs and
/// validations.
pub open spec fn header_at(s: ScopesView, scope: int, l: LexerView) -> Result<
    (Header, LexerView),
    ErrorView,
> {
    match outs_at(l) {
        Err(e) => Err(e),
        Ok((outs, explicit_outs, l1)) => if outs.len() == 0 {
            Err(l1.error("expected path"@))
        } else if l1.next() != Token::Colon {
            Err(l1.after_token().error(l1.unexpected(Token::Colon)))
        } else {
            let l2 = l1.after_token();
            let l3 = l2.after_ident();
            match l2.ident() {
                None => Err(l3.error("expected build command name"@)),
                Some(name) => if s.find_rule(scope, name) is None {
                    Err(l3.error("unknown build rule '"@ + name + "'"@))
                } else {
                    match ins_at(l3) {
                        Err(e) => Err(e),
                        Ok((ins, explicit, implicit, validations, l4)) => {
                            let l5 = l4.after_token();
                            if l4.next() != Token::Newline {
                                Err(l5.error(l4.unexpected(Token::Newline)))
                            } else {
                                Ok(
                                    (
                                        Header {
                                            outs,
                                            implicit_outs: outs.len() - explicit_outs,
                                            rule: s.find_rule(scope, name)->0,
                                            ins,
                                            implicit: implicit - explicit,
                                            order_only: ins.len() - implicit,
                                            validations,
                                        },
                                        l5,
                                    ),
                                )
                            }
                        },
                    }
                },
            }
        },
    }
}

/// The scopes with the indented lines of a `build` statement bound in `own`,
/// their values expanded in `scope`. `l` stands behind an indent. Where a line is
/// wrong, those before it are bound.
pub open spec fn edge_lines(s: ScopesView, scope: int, own: int, l: LexerView) -> Result<
    (ScopesView, LexerView),
    (ErrorView, ScopesView),
>
    decreases l.input.len() - l.ofs,
{
    match let_at(l) {
        Err(e) => Err((e, s)),
        Ok((key, toks, l1)) => {
            let t = s.with_value(own, key, s.expand(scope, toks));
            let l2 = l1.after_peek(Token::Indent);
            if l1.next() == Token::Indent && l.ofs < l2.ofs <= l2.input.len() && l2.input
                == l.input {
                edge_lines(t, scope, own, l2)
            } else {
                Ok((t, l2))
            }
        },
    }
}

/// A path of a `build` statement as the graph knows it.
pub open spec fn path_of(s: StateView, own: int, toks: Seq<TokView>) -> Seq<char> {
    canonical(s.scopes.expand(own, toks))
}

/// The graph with the outputs from the `k`-th on connected, or what is wrong
/// and the graph as it is then.
pub open spec fn outs_connected(s: StateView, edge: EdgeId, own: int, outs: PathToks, k: int) -> Result<
    StateView,
    (Seq<char>, StateView),
>
    decreases outs.len() - k,
{
    if 0 <= k < outs.len() {
        let path = path_of(s, own, outs[k]);
        if s.scopes.expand(own, outs[k]).len() == 0 {
            Err(("empty path"@, s))
        } else {
            match s.out_conflict(edge, path) {
                Some(m) => Err((m, s)),
                None => outs_connected(s.out_added(edge, path, 0), edge, own, outs, k + 1),
            }
        }
    } else {
        Ok(s)
    }
}

/// The graph with the inputs from the `k`-th on connected, or what is wrong
/// and the graph as it is then.
pub open spec fn ins_connected(s: StateView, edge: EdgeId, own: int, ins: PathToks, k: int) -> Result<
    StateView,
    (Seq<char>, StateView),
>
    decreases ins.len() - k,
{
    if 0 <= k < ins.len() {
        if s.scopes.expand(own, ins[k]).len() == 0 {
            Err(("empty path"@, s))
        } else {
            ins_connected(s.in_added(edge, path_of(s, own, ins[k]), 0), edge, own, ins, k + 1)
        }
    } else {
        Ok(s)
    }
}

/// The graph with the validations from the `k`-th on connected, or what is
/// wrong and the graph as it is then.
pub open spec fn validations_connected(
    s: StateView,
    edge: EdgeId,
    own: int,
    v: PathToks,
    k: int,
) -> Result<StateView, (Seq<char>, StateView)>
    decreases v.len() - k,
{
    if 0 <= k < v.len() {
        if s.scopes.expand(own, v[k]).len() == 0 {
            Err(("empty path"@, s))
        } else {
            validations_connected(
                s.validation_added(edge, path_of(s, own, v[k]), 0),
                edge,
                own,
                v,
                k + 1,
            )
        }
    } else {
        Ok(s)
    }
}

/// The graph with an edge for a header added, all its paths connected, or what
/// is wrong and the graph as it is then. An edge in an unknown pool is not added.
pub open spec fn edge_connected(s: StateView, own: ScopeId, h: Header) -> Result<
    StateView,
    (Seq<char>, StateView),
> {
    let id = EdgeId(s.edges.len() as usize);
    let e = id.0 as int;
    let s1 = s.edge_added(h.rule, own);
    let pool_name = s1.binding(e, "pool"@, Escape::Shell);
    if pool_name.len() > 0 && s1.find_pool(pool_name) is None {
        Err(("unknown pool name '"@ + pool_name + "'"@, s))
    } else {
        let s2 = if pool_name.len() > 0 {
            s1.with_edge(e, EdgeView { pool: s1.find_pool(pool_name)->0, ..s1.edges[e] })
        } else {
            s1
        };
        match outs_connected(s2, id, own.0 as int, h.outs, 0) {
            Err(m) => Err(m),
            Ok(s3) => {
                let s4 = s3.with_edge(
                    e,
                    EdgeView { implicit_outs: h.implicit_outs as usize, ..s3.edges[e] },
                );
                match ins_connected(s4, id, own.0 as int, h.ins, 0) {
                    Err(m) => Err(m),
                    Ok(s5) => {
                        let s6 = s5.with_edge(
                            e,
                            EdgeView {
                                implicit_deps: h.implicit as usize,
                                order_only_deps: h.order_only as usize,
                                ..s5.edges[e]
                            },
                        );
                        validations_connected(s6, id, own.0 as int, h.validations, 0)
                    },
                }
            },
        }
    }
}

/// Whether the self-reference of edge `e` is to be dropped.
pub open spec fn names_itself(s: StateView, e: int, warn: bool) -> bool {
    warn && s.edges[e].maybe_phony_cycle() && s.edges[e].inputs.contains(s.edges[e].outputs[0])
}

/// The warning about an edge that names itself.
pub open spec fn self_warning(path: Seq<char>) -> Seq<char> {
    "phony target '"@ + path
        + "' names itself as an input; ignoring [-w phonycycle=warn]"@
}

/// What has been parsed once the self-reference of edge `e` has been dealt
/// with.
pub open spec fn self_reference_dropped(p: Parsed, e: int, options: ParserOptions) -> Parsed {
    let s = p.state;
    let edge = s.edges[e];
    if names_itself(s, e, options.phony_cycle_action == PhonyCycleAction::Warn) {
        let out = edge.outputs[0];
        Parsed {
            state: s.input_dropped(EdgeId(e as usize), out),
            warnings: if options.quiet {
                p.warnings
            } else {
                p.warnings.push(self_warning(s.nodes[out.0 as int].path))
            },
        }
    } else {
        p
    }
}

/// The graph with the dyndep file of edge `e` noted, or what is wrong and the
/// graph as it is then.
pub open spec fn dyndep_noted(s: StateView, e: int) -> Result<
    StateView,
    (Seq<char>, StateView),
> {
    let name = s.binding(e, "dyndep"@, Escape::Plain);
    if name.len() == 0 {
        Ok(s)
    } else {
        let path = canonical(name);
        let n = s.id_of(path);
        let s1 = s.interned(path, 0);
        let s2 = s1.with_node(
            n.0 as int,
            NodeView { dyndep_pending: true, ..s1.nodes[n.0 as int] },
        );
        if !s2.edges[e].inputs.contains(n) {
            Err(("dyndep '"@ + name + "' is not an input"@, s2))
        } else {
            Ok(s2.with_edge(e, EdgeView { dyndep: Some(n), ..s2.edges[e] }))
        }
    }
}

/// What a `build` statement declares.
#[verifier::opaque]
pub open spec fn edge_at(p: Parsed, scope: ScopeId, l: LexerView, options: ParserOptions) -> Result<
    (Parsed, LexerView),
    Stopped,
> {
    match header_at(p.state.scopes, scope.0 as int, l) {
        Err(e) => Err((e, p)),
        Ok((h, l1)) => {
            let indented = l1.next() == Token::Indent;
            let l2 = l1.after_peek(Token::Indent);
            let own = if indented {
                ScopeId(p.state.scopes.scopes.len() as usize)
            } else {
                scope
            };
            let lines = if indented {
                edge_lines(
                    p.state.scopes.with_child(scope),
                    scope.0 as int,
                    own.0 as int,
                    l2,
                )
            } else {
                Ok((p.state.scopes, l2))
            };
            match lines {
                Err((e, scopes)) => Err(
                    (e, Parsed { state: StateView { scopes, ..p.state }, ..p }),
                ),
                Ok((scopes, l3)) => {
                    let s = StateView { scopes, ..p.state };
                    let e = s.edges.len() as int;
                    match edge_connected(s, own, h) {
                        Err((m, t)) => Err((l3.error(m), Parsed { state: t, ..p })),
                        Ok(s1) => {
                            let p1 = self_reference_dropped(
                                Parsed { state: s1, ..p },
                                e,
                                options,
                            );
                            match dyndep_noted(p1.state, e) {
                                Err((m, t)) => Err((l3.error(m), Parsed { state: t, ..p1 })),
                                Ok(s2) => Ok((Parsed { state: s2, ..p1 }, l3)),
                            }
                        },
                    }
                },
            }
        },
    }
}

/// What a `key = value` statement declares.
#[verifier::opaque]
pub open spec fn variable_at(p: Parsed, scope: int, l: LexerView, quiet: bool) -> Result<
    (Parsed, LexerView),
    Stopped,
> {
    match let_at(l) {
        Err(e) => Err((e, p)),
        Ok((key, toks, l1)) => {
            let value = p.state.scopes.expand(scope, toks);
            let bound = StateView { scopes: p.state.scopes.with_value(scope, key, value), ..p.state };
            if key == "ninja_required_version"@ {
                match required_version_verdict(value) {
                    Err(m) => Err((ErrorView::Fatal(m), p)),
                    Ok(None) => Ok((Parsed { state: bound, ..p }, l1)),
                    Ok(Some(w)) => Ok(
                        (
                            Parsed {
                                state: bound,
                                warnings: if quiet {
                                    p.warnings
                                } else {
                                    p.warnings.push(w)
                                },
                            },
                            l1,
                        ),
                    ),
                }
            } else {
                Ok((Parsed { state: bound, ..p }, l1))
            }
        },
    }
}

/// The error for a file that cannot be read, located where it is asked for.
pub open spec fn load_error(message: Seq<char>, parent: Option<LexerView>) -> ErrorView {
    match parent {
        Some(l) => l.error(message),
        None => ErrorView::Manifest(message),
    }
}

/// The message when files read each other without end.
pub open spec fn too_deep() -> Seq<char> {
    "manifests are nested too deeply"@
}

/// What the rest of a manifest declares, from where the lexer stands. Files may
/// be read `depth` levels deep.
pub open spec fn statements(
    files: Files,
    options: ParserOptions,
    p: Parsed,
    scope: ScopeId,
    l: LexerView,
    depth: nat,
) -> Result<Parsed, Stopped>
    decreases depth, l.input.len() - l.ofs, 1nat,
{
    let l1 = l.after_token();
    let t = l.next();
    if t == Token::Eof {
        Ok(p)
    } else if t == Token::Error {
        Err((l1.error(lexing_error(l1.input, l1.last)), p))
    } else {
        let r = if t == Token::Pool {
            pool_at(p, scope.0 as int, l1)
        } else if t == Token::Build {
            edge_at(p, scope, l1, options)
        } else if t == Token::Rule {
            rule_at(p, scope.0 as int, l1)
        } else if t == Token::Default {
            default_at(p, scope.0 as int, l1)
        } else if t == Token::Ident {
            variable_at(p, scope.0 as int, l1.unread(), options.quiet)
        } else if t == Token::Include || t == Token::Subninja {
            if l.ofs < l1.ofs <= l.input.len() {
                file_at(files, options, p, scope, l1, t == Token::Subninja, depth)
            } else {
                Ok((p, l1))
            }
        } else if t == Token::Newline {
            Ok((p, l1))
        } else {
            Err((l1.error("unexpected "@ + token_name(t)), p))
        };
        match r {
            Err(e) => Err(e),
            Ok((q, l2)) => if l.ofs < l2.ofs <= l2.input.len() && l2.input == l.input {
                statements(files, options, q, scope, l2, depth)
            } else {
                Ok(q)
            },
        }
    }
}

/// What a statement that reads another file declares. With `new_scope`, what
/// that file binds stays its own.
pub open spec fn file_at(
    files: Files,
    options: ParserOptions,
    p: Parsed,
    scope: ScopeId,
    l: LexerView,
    new_scope: bool,
    depth: nat,
) -> Result<(Parsed, LexerView), Stopped>
    decreases depth, l.input.len() - l.ofs, 2nat,
{
    let name = l.string(true, Seq::empty());
    let l1 = l.after_string(true);
    match name.error {
        Some(m) => Err((l1.error(m), p)),
        None => {
            let path = p.state.scopes.expand(scope.0 as int, name.toks);
            let sub = if new_scope {
                ScopeId(p.state.scopes.scopes.len() as usize)
            } else {
                scope
            };
            let q = if new_scope {
                Parsed {
                    state: StateView { scopes: p.state.scopes.with_child(scope), ..p.state },
                    ..p
                }
            } else {
                p
            };
            if depth == 0 {
                Err((l1.error(too_deep()), q))
            } else {
                match loaded(files, options, q, path, sub, Some(l1), (depth - 1) as nat) {
                    Err(e) => Err(e),
                    Ok(r) => {
                        let l2 = l1.after_token();
                        if l1.next() != Token::Newline {
                            Err((l2.error(l1.unexpected(Token::Newline)), r))
                        } else {
                            Ok((r, l2))
                        }
                    },
                }
            }
        },
    }
}

/// What a file declares.
pub open spec fn loaded(
    files: Files,
    options: ParserOptions,
    p: Parsed,
    filename: Seq<char>,
    scope: ScopeId,
    parent: Option<LexerView>,
    depth: nat,
) -> Result<Parsed, Stopped>
    decreases depth + 1, 0int, 0nat,
{
    match files(filename) {
        Ok(None) => Err(
            (load_error("loading '"@ + filename + "': No such file or directory"@, parent), p),
        ),
        Err(e) => Err((load_error("loading '"@ + filename + "': "@ + error_text(e), parent), p)),
        Ok(Some(c)) => statements(
            files,
            options,
            p,
            scope,
            LexerView { filename, input: c, ofs: 0, last: None },
            depth,
        ),
    }
}

pub proof fn lemma_after_token(l: LexerView)
    requires
        l.wf(),
    ensures
        l.after_token().wf(),
        l.after_token().input == l.input,
        l.after_token().filename == l.filename,
        l.after_token().ofs >= l.ofs,
        l.next() != Token::Eof ==> l.after_token().ofs > l.ofs,
        l.after_token().unread().wf(),
        l.after_token().unread().ofs >= l.ofs,
        l.after_token().unread().input == l.input,
        l.after_token().unread().filename == l.filename,
{
    lemma_token_at(l.input, l.ofs);
    lemma_behind_blanks(l.input, token_at(l.input, l.ofs).end);
}

pub proof fn lemma_after_ident(l: LexerView)
    requires
        l.wf(),
    ensures
        l.after_ident().wf(),
        l.after_ident().input == l.input,
        l.after_ident().filename == l.filename,
        l.after_ident().ofs >= l.ofs,
        l.ident() is Some ==> l.after_ident().ofs > l.ofs,
{
    lemma_scan(l.input, l.ofs, name_byte());
    lemma_behind_blanks(l.input, l.name_end());
}

pub proof fn lemma_after_string(l: LexerView, path: bool)
    requires
        l.wf(),
    ensures
        l.after_string(path).wf(),
        l.after_string(path).input == l.input,
        l.after_string(path).filename == l.filename,
        l.after_string(path).ofs >= l.ofs,
        l.string(path, Seq::empty()).error is None && l.string(path, Seq::empty()).toks.len() > 0
            ==> l.after_string(path).ofs > l.ofs,
{
    let e = Seq::<TokView>::empty();
    lemma_string_at(l.input, l.ofs, path, e);
    let r = string_at(l.input, l.ofs, path, e);
    lemma_behind_blanks(l.input, r.end);
    if r.error is None && r.toks.len() > 0 {
        lemma_string_progress(l.input, l.ofs, path, e);
    }
}

proof fn lemma_string_progress(c: Seq<u8>, p: int, path: bool, toks: Seq<TokView>)
    requires
        0 <= p <= c.len(),
        string_at(c, p, path, toks).error is None,
        string_at(c, p, path, toks).toks != toks,
    ensures
        string_at(c, p, path, toks).end > p,
{
    if p < c.len() && c[p] != 0 {
        if c[p] == 36 {
            lemma_scan(c, p + 1, simple_name_byte());
            if p + 1 >= c.len() {
            } else if c[p + 1] == 36 {
                lemma_string_at(c, p + 2, path, with_text(toks, "$"@));
            } else if c[p + 1] == 32 {
                lemma_string_at(c, p + 2, path, with_text(toks, " "@));
            } else if c[p + 1] == 58 {
                lemma_string_at(c, p + 2, path, with_text(toks, ":"@));
            } else if c[p + 1] == 10 {
                lemma_scan(c, p + 2, space());
                lemma_string_at(c, scan(c, p + 2, space()), path, toks);
            } else if c[p + 1] == 13 && p + 2 < c.len() && c[p + 2] == 10 {
                lemma_scan(c, p + 3, space());
                lemma_string_at(c, scan(c, p + 3, space()), path, toks);
            } else if c[p + 1] == 123 {
                lemma_scan(c, p + 2, name_byte());
                let r = scan(c, p + 2, name_byte());
                if r > p + 2 && r < c.len() && c[r] == 125 {
                    lemma_string_at(
                        c,
                        r + 1,
                        path,
                        with_var(toks, utf8_lossy(c.subrange(p + 2, r))),
                    );
                }
            } else if crate::lexer::is_simple_name_byte(c[p + 1]) {
                let r = scan(c, p + 1, simple_name_byte());
                lemma_string_at(c, r, path, with_var(toks, utf8_lossy(c.subrange(p + 1, r))));
            }
        } else if c[p] == 13 {
        } else if c[p] == 32 || c[p] == 58 || c[p] == 124 || c[p] == 10 {
            if !path && c[p] != 10 {
                let t = if c[p] == 32 {
                    " "@
                } else if c[p] == 58 {
                    ":"@
                } else {
                    "|"@
                };
                lemma_string_at(c, p + 1, path, with_text(toks, t));
            }
        } else {
            lemma_scan(c, p, literal_byte());
            let r = scan(c, p, literal_byte());
            if r > p {
                lemma_string_at(c, r, path, with_text(toks, utf8_lossy(c.subrange(p, r))));
            }
        }
    }
}

pub proof fn lemma_let(l: LexerView)
    requires
        l.wf(),
    ensures
        let_at(l) matches Ok((_, _, m)) ==> m.wf() && m.input == l.input && m.filename
            == l.filename && m.ofs > l.ofs,
{
    lemma_after_ident(l);
    lemma_after_token(l.after_ident());
    lemma_after_string(l.after_ident().after_token(), false);
}

/// The message about a variable that may not stand there.
fn unexpected_variable(key: &str) -> (r: String)
    ensures
        r@ == "unexpected variable '"@ + key@ + "'"@,
{
    let mut m = String::new();
    m.append("unexpected variable '");
    m.append(key);
    m.append("'");
    assert(m@ =~= "unexpected variable '"@ + key@ + "'"@);
    m
}

pub(crate) fn quoted(before: &str, name: &str, after: &str) -> (r: String)
    ensures
        r@ == before@ + name@ + after@,
{
    let mut m = String::new();
    m.append(before);
    m.append(name);
    m.append(after);
    assert(m@ =~= before@ + name@ + after@);
    m
}

pub(crate) fn parse_let<'a>(lexer: &mut Lexer<'a>) -> (r: Result<(String, EvalString), Error>)
    requires
        old(lexer)@.wf(),
    ensures
        final(lexer)@.wf(),
        final(lexer)@.same_file(old(lexer)@),
        final(lexer)@.ofs >= old(lexer)@.ofs,
        match (r, let_at(old(lexer)@)) {
            (Ok((k, v)), Ok((key, toks, l))) => k@ == key && v@ == toks && final(lexer)@ == l
                && l.ofs > old(lexer)@.ofs,
            (Err(e), Err(f)) => e@ == f,
            _ => false,
        },
{
    proof {
        lemma_let(lexer@);
    }
    let key = match lexer.read_ident() {
        Some(k) => k,
        None => {
            return Err(lexer.error("expected variable name"));
        },
    };
    match lexer.expect_token(Token::Equals) {
        Err(e) => {
            return Err(e);
        },
        Ok(_) => {},
    }
    let mut value = EvalString::new();
    match lexer.read_var_value(&mut value) {
        Err(e) => {
            return Err(e);
        },
        Ok(_) => {},
    }
    Ok((key, value))
}

/// Read the paths up to a delimiter.
pub(crate) fn read_paths<'a>(lexer: &mut Lexer<'a>, list: &mut Vec<EvalString>) -> (r: Result<(), Error>)
    requires
        old(lexer)@.wf(),
    ensures
        final(lexer)@.wf(),
        final(lexer)@.same_file(old(lexer)@),
        final(lexer)@.ofs >= old(lexer)@.ofs,
        match (r, paths_at(old(lexer)@, path_toks(old(list)@))) {
            (Ok(_), Ok((toks, l))) => path_toks(final(list)@) == toks && final(lexer)@ == l,
            (Err(e), Err(f)) => e@ == f,
            _ => false,
        },
{
    let ghost want = paths_at(lexer@, path_toks(list@));
    loop
        invariant
            lexer@.wf(),
            lexer@.same_file(old(lexer)@),
            lexer@.ofs >= old(lexer)@.ofs,
            paths_at(lexer@, path_toks(list@)) == want,
            want == paths_at(old(lexer)@, path_toks(old(list)@)),
        decreases lexer@.input.len() - lexer@.ofs,
    {
        let ghost l = lexer@;
        let ghost acc = path_toks(list@);
        proof {
            lemma_after_string(l, true);
        }
        let mut eval = EvalString::new();
        match lexer.read_path(&mut eval) {
            Err(e) => {
                return Err(e);
            },
            Ok(_) => {},
        }
        if eval.is_empty() {
            return Ok(());
        }
        let ghost t = eval@;
        list.push(eval);
        assert(path_toks(list@) =~= acc.push(t));
    }
}

/// Read the paths behind the delimiter `token`, if it is there.
pub(crate) fn read_paths_behind<'a>(lexer: &mut Lexer<'a>, token: Token, list: &mut Vec<EvalString>) -> (r:
    Result<(), Error>)
    requires
        old(lexer)@.wf(),
        token != Token::Eof,
    ensures
        final(lexer)@.wf(),
        final(lexer)@.same_file(old(lexer)@),
        final(lexer)@.ofs >= old(lexer)@.ofs,
        match (r, paths_behind(old(lexer)@, token, path_toks(old(list)@))) {
            (Ok(_), Ok((toks, l))) => path_toks(final(list)@) == toks && final(lexer)@ == l,
            (Err(e), Err(f)) => e@ == f,
            _ => false,
        },
{
    if lexer.peek_token(token) {
        read_paths(lexer, list)
    } else {
        Ok(())
    }
}

/// The unexpanded paths of a list.
pub open spec fn path_toks(v: Seq<EvalString>) -> PathToks {
    Seq::new(v.len(), |i: int| v[i]@)
}

/// The first line of a `build` statement.
struct HeaderLine {
    outs: Vec<EvalString>,
    implicit_outs: usize,
    rule: RuleId,
    ins: Vec<EvalString>,
    implicit: usize,
    order_only: usize,
    validations: Vec<EvalString>,
}

impl View for HeaderLine {
    type V = Header;

    closed spec fn view(&self) -> Header {
        Header {
            outs: path_toks(self.outs@),
            implicit_outs: self.implicit_outs as int,
            rule: self.rule,
            ins: path_toks(self.ins@),
            implicit: self.implicit as int,
            order_only: self.order_only as int,
            validations: path_toks(self.validations@),
        }
    }
}

impl HeaderLine {
    /// The counts fit the lists that they divide.
    spec fn counts_ok(self) -> bool {
        &&& self.implicit + self.order_only <= self.ins@.len()
        &&& self.implicit_outs <= self.outs@.len()
    }
}

pub proof fn lemma_paths(l: LexerView, acc: PathToks)
    requires
        l.wf(),
    ensures
        paths_at(l, acc) matches Ok((t, m)) ==> m.wf() && m.input == l.input && m.filename
            == l.filename && m.ofs >= l.ofs && t.len() >= acc.len(),
    decreases l.input.len() - l.ofs,
{
    lemma_after_string(l, true);
    let s = l.string(true, Seq::empty());
    let l1 = l.after_string(true);
    if s.error is None && s.toks.len() > 0 && l.ofs < l1.ofs <= l1.input.len() {
        lemma_paths(l1, acc.push(s.toks));
    }
}

pub proof fn lemma_paths_behind(l: LexerView, t: Token, acc: PathToks)
    requires
        l.wf(),
    ensures
        paths_behind(l, t, acc) matches Ok((p, m)) ==> m.wf() && m.input == l.input && m.filename
            == l.filename && m.ofs >= l.ofs && p.len() >= acc.len(),
{
    lemma_after_token(l);
    if l.next() == t {
        lemma_paths(l.after_peek(t), acc);
    }
}

fn parse_header<'a>(state: &State, scope: ScopeId, lexer: &mut Lexer<'a>) -> (r: Result<
    HeaderLine,
    Error,
>)
    requires
        state.wf(),
        scope.0 < state@.scopes.scopes.len(),
        old(lexer)@.wf(),
    ensures
        final(lexer)@.wf(),
        final(lexer)@.same_file(old(lexer)@),
        final(lexer)@.ofs >= old(lexer)@.ofs,
        match (r, header_at(state@.scopes, scope.0 as int, old(lexer)@)) {
            (Ok(h), Ok((w, l))) => h@ == w && final(lexer)@ == l && h.rule.0
                < state@.scopes.rules.len() && h.counts_ok(),
            (Err(e), Err(f)) => e@ == f,
            _ => false,
        },
{
    let ghost l0 = lexer@;
    let ghost empty = Seq::<Seq<TokView>>::empty();
    let mut outs: Vec<EvalString> = Vec::new();
    assert(path_toks(outs@) =~= empty);
    proof {
        lemma_paths(l0, empty);
    }
    match read_paths(lexer, &mut outs) {
        Err(e) => {
            return Err(e);
        },
        Ok(_) => {},
    }
    let explicit_outs: usize = outs.len();
    proof {
        assert(path_toks(outs@).len() == explicit_outs);
        lemma_paths_behind(lexer@, Token::Pipe, path_toks(outs@));
    }
    match read_paths_behind(lexer, Token::Pipe, &mut outs) {
        Err(e) => {
            return Err(e);
        },
        Ok(_) => {},
    }
    assert(path_toks(outs@).len() == outs@.len());
    assert(outs.len() >= explicit_outs);
    if outs.len() == 0 {
        return Err(lexer.error("expected path"));
    }
    match lexer.expect_token(Token::Colon) {
        Err(e) => {
            return Err(e);
        },
        Ok(_) => {},
    }
    let rule_name = match lexer.read_ident() {
        Some(n) => n,
        None => {
            return Err(lexer.error("expected build command name"));
        },
    };
    let rule = match state.scopes().lookup_rule(scope, rule_name.as_str()) {
        Some(r) => r,
        None => {
            let m = quoted("unknown build rule '", rule_name.as_str(), "'");
            return Err(lexer.error(m.as_str()));
        },
    };
    let mut ins: Vec<EvalString> = Vec::new();
    assert(path_toks(ins@) =~= empty);
    proof {
        lemma_paths(lexer@, empty);
    }
    match read_paths(lexer, &mut ins) {
        Err(e) => {
            return Err(e);
        },
        Ok(_) => {},
    }
    let explicit_ins: usize = ins.len();
    proof {
        assert(path_toks(ins@).len() == explicit_ins);
        lemma_paths_behind(lexer@, Token::Pipe, path_toks(ins@));
    }
    match read_paths_behind(lexer, Token::Pipe, &mut ins) {
        Err(e) => {
            return Err(e);
        },
        Ok(_) => {},
    }
    let with_implicit: usize = ins.len();
    proof {
        assert(path_toks(ins@).len() == with_implicit);
        lemma_paths_behind(lexer@, Token::Pipe2, path_toks(ins@));
    }
    match read_paths_behind(lexer, Token::Pipe2, &mut ins) {
        Err(e) => {
            return Err(e);
        },
        Ok(_) => {},
    }
    assert(path_toks(ins@).len() == ins@.len());
    let mut validations: Vec<EvalString> = Vec::new();
    assert(path_toks(validations@) =~= empty);
    match read_paths_behind(lexer, Token::PipeAt, &mut validations) {
        Err(e) => {
            return Err(e);
        },
        Ok(_) => {},
    }
    match lexer.expect_token(Token::Newline) {
        Err(e) => {
            return Err(e);
        },
        Ok(_) => {},
    }
    let implicit_outs: usize = outs.len() - explicit_outs;
    let implicit: usize = with_implicit - explicit_ins;
    let order_only: usize = ins.len() - with_implicit;
    Ok(HeaderLine { outs, implicit_outs, rule, ins, implicit, order_only, validations })
}

fn connect_outs<'a>(
    state: &mut State,
    lexer: &Lexer<'a>,
    edge: EdgeId,
    own: ScopeId,
    outs: &Vec<EvalString>,
) -> (r: Result<(), Error>)
    requires
        old(state).wf(),
        lexer@.wf(),
        edge.0 < old(state)@.edges.len(),
        own.0 < old(state)@.scopes.scopes.len(),
    ensures
        final(state).wf(),
        at_rest(old(state)@) ==> at_rest(final(state)@),
        final(state)@.scopes == old(state)@.scopes,
        final(state)@.edges.len() == old(state)@.edges.len(),
        r is Ok ==> final(state)@.edges[edge.0 as int].outputs.len() == old(
            state)@.edges[edge.0 as int].outputs.len() + outs@.len(),
        match (r, outs_connected(old(state)@, edge, own.0 as int, path_toks(outs@), 0)) {
            (Ok(_), Ok(s)) => final(state)@ == s,
            (Err(e), Err((m, s))) => e@ == lexer@.error(m) && final(state)@ == s,
            _ => false,
        },
{
    let ghost toks = path_toks(outs@);
    let ghost want = outs_connected(state@, edge, own.0 as int, toks, 0);
    let mut i: usize = 0;
    while i < outs.len()
        invariant
            i <= outs.len(),
            state.wf(),
            at_rest(old(state)@) ==> at_rest(state@),
            lexer@.wf(),
            toks == path_toks(outs@),
            edge.0 < state@.edges.len(),
            own.0 < state@.scopes.scopes.len(),
            state@.scopes == old(state)@.scopes,
            state@.edges.len() == old(state)@.edges.len(),
            state@.edges[edge.0 as int].outputs.len() == old(state)@.edges[edge.0 as int].outputs.len()
                + i,
            want == outs_connected(old(state)@, edge, own.0 as int, path_toks(outs@), 0),
            outs_connected(state@, edge, own.0 as int, toks, i as int) == want,
        decreases outs.len() - i,
    {
        assert(toks[i as int] == outs@[i as int]@);
        let mut path = state.scopes().expand(own, &outs[i]);
        if path.as_str().is_empty() {
            return Err(lexer.error("empty path"));
        }
        let slash_bits = canonicalize_path(&mut path);
        match state.add_out(edge, path.as_str(), slash_bits) {
            Err(m) => {
                return Err(lexer.error(m.as_str()));
            },
            Ok(_) => {},
        }
        i += 1;
    }
    Ok(())
}

fn connect_ins<'a>(
    state: &mut State,
    lexer: &Lexer<'a>,
    edge: EdgeId,
    own: ScopeId,
    ins: &Vec<EvalString>,
) -> (r: Result<(), Error>)
    requires
        old(state).wf(),
        lexer@.wf(),
        edge.0 < old(state)@.edges.len(),
        own.0 < old(state)@.scopes.scopes.len(),
    ensures
        final(state).wf(),
        at_rest(old(state)@) ==> at_rest(final(state)@),
        final(state)@.scopes == old(state)@.scopes,
        final(state)@.edges.len() == old(state)@.edges.len(),
        r is Ok ==> final(state)@.edges[edge.0 as int].inputs.len() == old(
            state)@.edges[edge.0 as int].inputs.len() + ins@.len(),
        match (r, ins_connected(old(state)@, edge, own.0 as int, path_toks(ins@), 0)) {
            (Ok(_), Ok(s)) => final(state)@ == s,
            (Err(e), Err((m, s))) => e@ == lexer@.error(m) && final(state)@ == s,
            _ => false,
        },
{
    let ghost toks = path_toks(ins@);
    let ghost want = ins_connected(state@, edge, own.0 as int, toks, 0);
    let mut i: usize = 0;
    while i < ins.len()
        invariant
            i <= ins.len(),
            state.wf(),
            at_rest(old(state)@) ==> at_rest(state@),
            lexer@.wf(),
            toks == path_toks(ins@),
            edge.0 < state@.edges.len(),
            own.0 < state@.scopes.scopes.len(),
            state@.scopes == old(state)@.scopes,
            state@.edges.len() == old(state)@.edges.len(),
            state@.edges[edge.0 as int].inputs.len() == old(state)@.edges[edge.0 as int].inputs.len()
                + i,
            want == ins_connected(old(state)@, edge, own.0 as int, path_toks(ins@), 0),
            ins_connected(state@, edge, own.0 as int, toks, i as int) == want,
        decreases ins.len() - i,
    {
        assert(toks[i as int] == ins@[i as int]@);
        let mut path = state.scopes().expand(own, &ins[i]);
        if path.as_str().is_empty() {
            return Err(lexer.error("empty path"));
        }
        let slash_bits = canonicalize_path(&mut path);
        state.add_in(edge, path.as_str(), slash_bits);
        i += 1;
    }
    Ok(())
}

fn connect_validations<'a>(
    state: &mut State,
    lexer: &Lexer<'a>,
    edge: EdgeId,
    own: ScopeId,
    list: &Vec<EvalString>,
) -> (r: Result<(), Error>)
    requires
        old(state).wf(),
        lexer@.wf(),
        edge.0 < old(state)@.edges.len(),
        own.0 < old(state)@.scopes.scopes.len(),
    ensures
        final(state).wf(),
        at_rest(old(state)@) ==> at_rest(final(state)@),
        final(state)@.scopes == old(state)@.scopes,
        final(state)@.edges.len() == old(state)@.edges.len(),
        match (r, validations_connected(old(state)@, edge, own.0 as int, path_toks(list@), 0)) {
            (Ok(_), Ok(s)) => final(state)@ == s,
            (Err(e), Err((m, s))) => e@ == lexer@.error(m) && final(state)@ == s,
            _ => false,
        },
{
    let ghost toks = path_toks(list@);
    let ghost want = validations_connected(state@, edge, own.0 as int, toks, 0);
    let mut i: usize = 0;
    while i < list.len()
        invariant
            i <= list.len(),
            state.wf(),
            at_rest(old(state)@) ==> at_rest(state@),
            lexer@.wf(),
            toks == path_toks(list@),
            edge.0 < state@.edges.len(),
            own.0 < state@.scopes.scopes.len(),
            state@.scopes == old(state)@.scopes,
            state@.edges.len() == old(state)@.edges.len(),
            want == validations_connected(old(state)@, edge, own.0 as int, path_toks(list@), 0),
            validations_connected(state@, edge, own.0 as int, toks, i as int) == want,
        decreases list.len() - i,
    {
        assert(toks[i as int] == list@[i as int]@);
        let mut path = state.scopes().expand(own, &list[i]);
        if path.as_str().is_empty() {
            return Err(lexer.error("empty path"));
        }
        let slash_bits = canonicalize_path(&mut path);
        state.add_validation(edge, path.as_str(), slash_bits);
        i += 1;
    }
    Ok(())
}

fn set_pool(state: &mut State, edge: EdgeId, pool: PoolId)
    requires
        old(state).wf(),
        edge.0 < old(state)@.edges.len(),
        pool.0 < old(state)@.pools.len(),
    ensures
        final(state).wf(),
        at_rest(old(state)@) ==> at_rest(final(state)@),
        final(state)@ == old(state)@.with_edge(
            edge.0 as int,
            EdgeView { pool, ..old(state)@.edges[edge.0 as int] },
        ),
{
    let ghost s = state@;
    let ghost e = edge.0 as int;
    proof {
        state.lemma_wf();
        assert(s.edge_ok(s.edges[e]));
        lemma_edge_update(s, e, EdgeView { pool, ..s.edges[e] });
    }
    let slot = state.edge_mut(edge);
    slot.pool = pool;
}

fn set_implicit_outs(state: &mut State, edge: EdgeId, implicit_outs: usize)
    requires
        old(state).wf(),
        edge.0 < old(state)@.edges.len(),
        implicit_outs <= old(state)@.edges[edge.0 as int].outputs.len(),
    ensures
        final(state).wf(),
        at_rest(old(state)@) ==> at_rest(final(state)@),
        final(state)@ == old(state)@.with_edge(
            edge.0 as int,
            EdgeView { implicit_outs, ..old(state)@.edges[edge.0 as int] },
        ),
{
    let ghost s = state@;
    let ghost e = edge.0 as int;
    proof {
        state.lemma_wf();
        assert(s.edge_ok(s.edges[e]));
        lemma_edge_update(s, e, EdgeView { implicit_outs, ..s.edges[e] });
    }
    let slot = state.edge_mut(edge);
    slot.implicit_outs = implicit_outs;
}

fn set_input_counts(state: &mut State, edge: EdgeId, implicit_deps: usize, order_only_deps: usize)
    requires
        old(state).wf(),
        edge.0 < old(state)@.edges.len(),
        implicit_deps + order_only_deps <= old(state)@.edges[edge.0 as int].inputs.len(),
    ensures
        final(state).wf(),
        at_rest(old(state)@) ==> at_rest(final(state)@),
        final(state)@ == old(state)@.with_edge(
            edge.0 as int,
            EdgeView { implicit_deps, order_only_deps, ..old(state)@.edges[edge.0 as int] },
        ),
{
    let ghost s = state@;
    let ghost e = edge.0 as int;
    proof {
        state.lemma_wf();
        assert(s.edge_ok(s.edges[e]));
        lemma_edge_update(s, e, EdgeView { implicit_deps, order_only_deps, ..s.edges[e] });
    }
    let slot = state.edge_mut(edge);
    slot.implicit_deps = implicit_deps;
    slot.order_only_deps = order_only_deps;
}

fn set_dyndep(state: &mut State, edge: EdgeId, node: NodeId)
    requires
        old(state).wf(),
        edge.0 < old(state)@.edges.len(),
        node.0 < old(state)@.nodes.len(),
    ensures
        final(state).wf(),
        at_rest(old(state)@) ==> at_rest(final(state)@),
        final(state)@ == old(state)@.with_edge(
            edge.0 as int,
            EdgeView { dyndep: Some(node), ..old(state)@.edges[edge.0 as int] },
        ),
{
    let ghost s = state@;
    let ghost e = edge.0 as int;
    proof {
        state.lemma_wf();
        assert(s.edge_ok(s.edges[e]));
        lemma_edge_update(s, e, EdgeView { dyndep: Some(node), ..s.edges[e] });
    }
    let slot = state.edge_mut(edge);
    slot.dyndep = Some(node);
}

fn drop_new_edge(state: &mut State, Ghost(s): Ghost<StateView>)
    requires
        old(state).wf(),
        s.wf(),
        old(state)@ == (StateView { edges: old(state)@.edges, ..s }),
        old(state)@.edges.len() == s.edges.len() + 1,
        old(state)@.edges.drop_last() == s.edges,
        old(state)@.edges.last().inputs.len() == 0,
        old(state)@.edges.last().outputs.len() == 0,
        old(state)@.edges.last().validations.len() == 0,
    ensures
        final(state).wf(),
        at_rest(old(state)@) ==> at_rest(final(state)@),
        final(state)@ == s,
{
    proof {
        let t = state@;
        assert forall|i: int| 0 <= i < t.nodes.len() implies crate::state::edges_below(
            (#[trigger] t.nodes[i]).out_edges,
            (t.edges.len() - 1) as nat,
        ) && crate::state::edges_below(
            t.nodes[i].validation_out_edges,
            (t.edges.len() - 1) as nat,
        ) by {
            assert(s.node_ok(s.nodes[i]));
        }
    }
    state.pop_edge();
}

/// Add the edge that a header describes, with its paths connected.
fn connect_edge<'a>(state: &mut State, lexer: &Lexer<'a>, own: ScopeId, h: &HeaderLine) -> (r:
    Result<EdgeId, Error>)
    requires
        old(state).wf(),
        lexer@.wf(),
        own.0 < old(state)@.scopes.scopes.len(),
        h.rule.0 < old(state)@.scopes.rules.len(),
        h.counts_ok(),
    ensures
        final(state).wf(),
        at_rest(old(state)@) ==> at_rest(final(state)@),
        r is Ok ==> final(state)@.scopes == old(state)@.scopes,
        final(state)@.scopes.scopes.len() == old(state)@.scopes.scopes.len(),
        match (r, edge_connected(old(state)@, own, h@)) {
            (Ok(id), Ok(s)) => final(state)@ == s && id.0 == old(state)@.edges.len() && id.0
                < final(state)@.edges.len(),
            (Err(e), Err((m, s))) => e@ == lexer@.error(m) && final(state)@ == s,
            _ => false,
        },
{
    let ghost s = state@;
    proof {
        state.lemma_wf();
    }
    let edge = state.add_edge(h.rule, own);
    let pool_name = state.edge_binding(edge, "pool");
    if !pool_name.as_str().is_empty() {
        match state.lookup_pool(pool_name.as_str()) {
            Some(p) => {
                set_pool(state, edge, p);
            },
            None => {
                assert(state@.edges.drop_last() =~= s.edges);
                drop_new_edge(state, Ghost(s));
                let m = quoted("unknown pool name '", pool_name.as_str(), "'");
                return Err(lexer.error(m.as_str()));
            },
        }
    }
    match connect_outs(state, lexer, edge, own, &h.outs) {
        Err(e) => {
            return Err(e);
        },
        Ok(_) => {},
    }
    set_implicit_outs(state, edge, h.implicit_outs);
    match connect_ins(state, lexer, edge, own, &h.ins) {
        Err(e) => {
            return Err(e);
        },
        Ok(_) => {},
    }
    set_input_counts(state, edge, h.implicit, h.order_only);
    match connect_validations(state, lexer, edge, own, &h.validations) {
        Err(e) => {
            return Err(e);
        },
        Ok(_) => {},
    }
    Ok(edge)
}

pub(crate) fn contains_node(v: &[NodeId], x: NodeId) -> (r: bool)
    ensures
        r == v@.contains(x),
{
    let mut i: usize = 0;
    while i < v.len()
        invariant
            i <= v@.len(),
            forall|k: int| 0 <= k < i ==> v@[k] != x,
        decreases v@.len() - i,
    {
        if v[i] == x {
            assert(v@[i as int] == x);
            return true;
        }
        i += 1;
    }
    false
}

/// Note the dyndep file of `edge`.
fn note_dyndep<'a>(state: &mut State, lexer: &Lexer<'a>, edge: EdgeId) -> (r: Result<(), Error>)
    requires
        old(state).wf(),
        lexer@.wf(),
        edge.0 < old(state)@.edges.len(),
    ensures
        final(state).wf(),
        at_rest(old(state)@) ==> at_rest(final(state)@),
        final(state)@.scopes == old(state)@.scopes,
        match (r, dyndep_noted(old(state)@, edge.0 as int)) {
            (Ok(_), Ok(s)) => final(state)@ == s,
            (Err(e), Err((m, s))) => e@ == lexer@.error(m) && final(state)@ == s,
            _ => false,
        },
{
    let ghost s = state@;
    let ghost e = edge.0 as int;
    let dyndep = state.edge_dyndep_binding(edge);
    if dyndep.as_str().is_empty() {
        return Ok(());
    }
    let mut path = dyndep.clone();
    let slash_bits = canonicalize_path(&mut path);
    let node = state.get_node(path.as_str(), slash_bits);
    let ghost s1 = state@;
    let ghost n = node.0 as int;
    proof {
        state.lemma_wf();
    }
    let slot = state.node_mut(node);
    slot.dyndep_pending = true;
    proof {
        let v = NodeView { dyndep_pending: true, ..s1.nodes[n] };
        assert(s1.node_ok(s1.nodes[n]));
        lemma_node_update(s1, n, v);
        assert(state@ == s1.with_node(n, v));
    }
    let ghost s2 = state@;
    if !contains_node(state.edge(edge).inputs(), node) {
        let m = quoted("dyndep '", dyndep.as_str(), "' is not an input");
        return Err(lexer.error(m.as_str()));
    }
    set_dyndep(state, edge, node);
    Ok(())
}

/// How deep files may read each other: as deep as a number can count.
pub const MAX_DEPTH: usize = usize::MAX;

/// Parses manifests into a [`State`].
pub struct ManifestParser {
    options: ParserOptions,
    warnings: Vec<String>,
}

/// The files of a disk.
pub open spec fn files_of<D: DiskInterface>(m: D::Model) -> Files {
    |path: Seq<char>| D::content_of(m, path)
}

/// Whether parsing ended as `w` says, with `state` and `warnings`, and with the
/// same error if there is one.
pub open spec fn parsed_as(
    r: Result<(), Error>,
    state: StateView,
    warnings: Seq<Seq<char>>,
    w: Result<Parsed, Stopped>,
) -> bool {
    match (r, w) {
        (Ok(_), Ok(p)) => p.state == state && p.warnings == warnings,
        (Err(e), Err((f, p))) => e@ == f && p.state == state && p.warnings == warnings,
        _ => false,
    }
}

/// Whether a statement was parsed as `w` says.
pub open spec fn statement_parsed_as(
    r: Result<(), Error>,
    state: StateView,
    warnings: Seq<Seq<char>>,
    l: LexerView,
    w: Result<(Parsed, LexerView), Stopped>,
) -> bool {
    match (r, w) {
        (Ok(_), Ok((p, m))) => p.state == state && p.warnings == warnings && m == l,
        (Err(e), Err((f, p))) => e@ == f && p.state == state && p.warnings == warnings,
        _ => false,
    }
}

impl ManifestParser {
    /// The options of the parser.
    pub closed spec fn opts(&self) -> ParserOptions {
        self.options
    }

    /// The warnings so far.
    pub closed spec fn warned(&self) -> Seq<Seq<char>> {
        texts(self.warnings@)
    }

    /// What has been parsed into `s`.
    pub open spec fn parsed(&self, s: StateView) -> Parsed {
        Parsed { state: s, warnings: self.warned() }
    }

    /// Create a parser.
    pub fn new(options: ParserOptions) -> (r: ManifestParser)
        ensures
            r.opts() == options,
            r.warned() == Seq::<Seq<char>>::empty(),
    {
        let r = ManifestParser { options, warnings: Vec::new() };
        assert(r.warned() =~= Seq::<Seq<char>>::empty());
        r
    }

    /// Warnings produced while parsing (e.g. version or phony-cycle warnings).
    pub fn warnings(&self) -> (r: &[String])
        ensures
            texts(r@) == self.warned(),
    {
        self.warnings.as_slice()
    }

    /// Take the accumulated warnings.
    pub fn take_warnings(&mut self) -> (r: Vec<String>)
        ensures
            texts(r@) == old(self).warned(),
            final(self).warned() == Seq::<Seq<char>>::empty(),
            final(self).opts() == old(self).opts(),
    {
        let mut out: Vec<String> = Vec::new();
        std::mem::swap(&mut out, &mut self.warnings);
        assert(self.warned() =~= Seq::<Seq<char>>::empty());
        out
    }

    /// Load and parse `filename` into the root scope of `state`, reading files
    /// through `disk`.
    pub fn load<D: DiskInterface>(&mut self, state: &mut State, disk: &D, filename: &str) -> (r:
        Result<(), Error>)
        requires
            old(state).wf(),
        ensures
            final(state).wf(),
            at_rest(old(state)@) ==> at_rest(final(state)@),
            final(self).opts() == old(self).opts(),
            parsed_as(
                r,
                final(state)@,
                final(self).warned(),
                loaded(
                    files_of::<D>(disk.model()),
                    old(self).opts(),
                    old(self).parsed(old(state)@),
                    filename@,
                    root_scope(),
                    None,
                    MAX_DEPTH as nat,
                ),
            ),
    {
        proof {
            state.lemma_wf();
        }
        self.load_file(state, disk, filename, root_scope(), None, MAX_DEPTH)
    }

    /// Parse manifest text directly; only the files it reads are taken from
    /// `disk`.
    pub fn parse_text<D: DiskInterface>(
        &mut self,
        state: &mut State,
        disk: &D,
        filename: &str,
        input: &[u8],
    ) -> (r: Result<(), Error>)
        requires
            old(state).wf(),
        ensures
            final(state).wf(),
            at_rest(old(state)@) ==> at_rest(final(state)@),
            final(self).opts() == old(self).opts(),
            parsed_as(
                r,
                final(state)@,
                final(self).warned(),
                statements(
                    files_of::<D>(disk.model()),
                    old(self).opts(),
                    old(self).parsed(old(state)@),
                    root_scope(),
                    (LexerView { filename: filename@, input: input@, ofs: 0, last: None }),
                    MAX_DEPTH as nat,
                ),
            ),
    {
        proof {
            state.lemma_wf();
        }
        self.parse(state, disk, filename, input, root_scope(), MAX_DEPTH)
    }

    fn warn(&mut self, message: String)
        ensures
            final(self).opts() == old(self).opts(),
            final(self).warned() == (if old(self).opts().quiet {
                old(self).warned()
            } else {
                old(self).warned().push(message@)
            }),
    {
        if !self.options.quiet {
            self.warnings.push(message);
            assert(self.warned() =~= old(self).warned().push(message@));
        }
    }

    fn parse_pool<'a>(&self, state: &mut State, lexer: &mut Lexer<'a>, scope: ScopeId) -> (r: Result<
        (),
        Error,
    >)
        requires
            old(state).wf(),
            old(lexer)@.wf(),
            scope.0 < old(state)@.scopes.scopes.len(),
        ensures
            final(state).wf(),
            at_rest(old(state)@) ==> at_rest(final(state)@),
            final(lexer)@.wf(),
            final(lexer)@.same_file(old(lexer)@),
            final(lexer)@.ofs >= old(lexer)@.ofs,
            final(state)@.scopes.scopes.len() >= old(state)@.scopes.scopes.len(),
            statement_parsed_as(
                r,
                final(state)@,
                self.warned(),
                final(lexer)@,
                pool_at(self.parsed(old(state)@), scope.0 as int, old(lexer)@),
            ),
    {
        proof {
            reveal(pool_at);
        }
        let ghost p = self.parsed(state@);
        let name = match lexer.read_ident() {
            Some(n) => n,
            None => {
                return Err(lexer.error("expected pool name"));
            },
        };
        match lexer.expect_token(Token::Newline) {
            Err(e) => {
                return Err(e);
            },
            Ok(_) => {},
        }
        if state.lookup_pool(name.as_str()).is_some() {
            let m = quoted("duplicate pool '", name.as_str(), "'");
            return Err(lexer.error(m.as_str()));
        }
        let ghost want = pool_lines(p.state.scopes, scope.0 as int, lexer@, -1);
        let mut depth: i32 = -1;
        let ghost mut here = lexer@;
        proof {
            lemma_after_token(lexer@);
        }
        let mut more: bool = lexer.peek_token(Token::Indent);
        while more
            invariant
                state.wf(),
                at_rest(old(state)@) ==> at_rest(state@),
                *state == *old(state),
                scope.0 < state@.scopes.scopes.len(),
                p == self.parsed(old(state)@),
                here.wf(),
                lexer@.wf(),
                lexer@.same_file(old(lexer)@),
                lexer@.ofs >= old(lexer)@.ofs,
                lexer@ == here.after_peek(Token::Indent),
                lexer@.input == here.input,
                more == (here.next() == Token::Indent),
                more ==> lexer@.ofs > here.ofs,
                pool_lines(p.state.scopes, scope.0 as int, here, depth as int) == want,
                pool_at(p, scope.0 as int, old(lexer)@) == (match want {
                    Err(e) => Err((e, p)),
                    Ok((d, l3)) => if d < 0 {
                        Err((l3.error("expected 'depth =' line"@), p))
                    } else {
                        Ok(
                            (
                                Parsed {
                                    state: StateView {
                                        pools: p.state.pools.push(
                                            PoolView { name: name@, depth: d as i32, current_use: 0 },
                                        ),
                                        ..p.state
                                    },
                                    ..p
                                },
                                l3,
                            ),
                        )
                    },
                }),
            decreases here.input.len() - here.ofs,
        {
            let ghost before = here;
            proof {
                lemma_let(lexer@);
            }
            let (key, value) = match parse_let(lexer) {
                Err(e) => {
                    return Err(e);
                },
                Ok(kv) => kv,
            };
            if !str_eq(key.as_str(), "depth") {
                let m = unexpected_variable(key.as_str());
                return Err(lexer.error(m.as_str()));
            }
            let text = state.scopes().expand(scope, &value);
            depth = parse_leading_int(text.as_str());
            if depth < 0 {
                return Err(lexer.error("invalid pool depth"));
            }
            proof {
                here = lexer@;
                lemma_after_token(here);
            }
            more = lexer.peek_token(Token::Indent);
        }
        if depth < 0 {
            return Err(lexer.error("expected 'depth =' line"));
        }
        match state.add_pool(Pool::new(name, depth)) {
            Err(m) => Err(lexer.error(m.as_str())),
            Ok(_) => Ok(()),
        }
    }

    fn parse_rule<'a>(&self, state: &mut State, lexer: &mut Lexer<'a>, scope: ScopeId) -> (r: Result<
        (),
        Error,
    >)
        requires
            old(state).wf(),
            old(lexer)@.wf(),
            scope.0 < old(state)@.scopes.scopes.len(),
        ensures
            final(state).wf(),
            at_rest(old(state)@) ==> at_rest(final(state)@),
            final(lexer)@.wf(),
            final(lexer)@.same_file(old(lexer)@),
            final(lexer)@.ofs >= old(lexer)@.ofs,
            final(state)@.scopes.scopes.len() >= old(state)@.scopes.scopes.len(),
            statement_parsed_as(
                r,
                final(state)@,
                self.warned(),
                final(lexer)@,
                rule_at(self.parsed(old(state)@), scope.0 as int, old(lexer)@),
            ),
    {
        proof {
            reveal(rule_at);
        }
        let ghost p = self.parsed(state@);
        let name = match lexer.read_ident() {
            Some(n) => n,
            None => {
                return Err(lexer.error("expected rule name"));
            },
        };
        match lexer.expect_token(Token::Newline) {
            Err(e) => {
                return Err(e);
            },
            Ok(_) => {},
        }
        if state.scopes().lookup_rule_current_scope(scope, name.as_str()).is_some() {
            let m = quoted("duplicate rule '", name.as_str(), "'");
            return Err(lexer.error(m.as_str()));
        }
        let rule = match parse_rule_lines(lexer, name) {
            Err(e) => {
                return Err(e);
            },
            Ok(r) => r,
        };
        let has_rspfile: bool = rule_binds(&rule, "rspfile");
        let has_rspfile_content: bool = rule_binds(&rule, "rspfile_content");
        if has_rspfile != has_rspfile_content {
            return Err(lexer.error("rspfile and rspfile_content need to be both specified"));
        }
        if !rule_binds(&rule, "command") {
            return Err(lexer.error("expected 'command =' line"));
        }
        state.add_rule(scope, rule);
        Ok(())
    }

    fn parse_default<'a>(&self, state: &mut State, lexer: &mut Lexer<'a>, scope: ScopeId) -> (r:
        Result<(), Error>)
        requires
            old(state).wf(),
            old(lexer)@.wf(),
            scope.0 < old(state)@.scopes.scopes.len(),
        ensures
            final(state).wf(),
            at_rest(old(state)@) ==> at_rest(final(state)@),
            final(lexer)@.wf(),
            final(lexer)@.same_file(old(lexer)@),
            final(lexer)@.ofs >= old(lexer)@.ofs,
            final(state)@.scopes.scopes.len() >= old(state)@.scopes.scopes.len(),
            statement_parsed_as(
                r,
                final(state)@,
                self.warned(),
                final(lexer)@,
                default_at(self.parsed(old(state)@), scope.0 as int, old(lexer)@),
            ),
    {
        proof {
            reveal(default_at);
        }
        let ghost p = self.parsed(state@);
        let mut eval = EvalString::new();
        match lexer.read_path(&mut eval) {
            Err(e) => {
                return Err(e);
            },
            Ok(_) => {},
        }
        if eval.is_empty() {
            return Err(lexer.error("expected target name"));
        }
        let ghost want = default_targets(p.state, scope.0 as int, lexer@, eval@);
        let mut more: bool = true;
        while more
            invariant
                state.wf(),
                at_rest(old(state)@) ==> at_rest(state@),
                lexer@.wf(),
                lexer@.same_file(old(lexer)@),
                lexer@.ofs >= old(lexer)@.ofs,
                scope.0 < state@.scopes.scopes.len(),
                state@.scopes == old(state)@.scopes,
                p == self.parsed(old(state)@),
                more ==> default_targets(state@, scope.0 as int, lexer@, eval@) == want,
                !more ==> want == Ok::<(StateView, LexerView), (ErrorView, StateView)>((state@, lexer@)),
                default_at(p, scope.0 as int, old(lexer)@) == (match want {
                    Err((e, s)) => Err((e, Parsed { state: s, ..p })),
                    Ok((s, l2)) => {
                        let l3 = l2.after_token();
                        if l2.next() != Token::Newline {
                            Err(
                                (
                                    l3.error(l2.unexpected(Token::Newline)),
                                    Parsed { state: s, ..p },
                                ),
                            )
                        } else {
                            Ok((Parsed { state: s, ..p }, l3))
                        }
                    },
                }),
            decreases (if more {
                1int
            } else {
                0int
            }) + lexer@.input.len() - lexer@.ofs,
        {
            let ghost l = lexer@;
            let mut path = state.scopes().expand(scope, &eval);
            if path.as_str().is_empty() {
                return Err(lexer.error("empty path"));
            }
            canonicalize_path(&mut path);
            match state.add_default(path.as_str()) {
                Err(m) => {
                    return Err(lexer.error(m.as_str()));
                },
                Ok(_) => {},
            }
            eval.clear();
            proof {
                lemma_after_string(l, true);
            }
            match lexer.read_path(&mut eval) {
                Err(e) => {
                    return Err(e);
                },
                Ok(_) => {},
            }
            if eval.is_empty() {
                more = false;
            }
        }
        lexer.expect_token(Token::Newline)
    }

    #[verifier::rlimit(60)]
    #[verifier::spinoff_prover]
    fn parse_edge<'a>(&mut self, state: &mut State, lexer: &mut Lexer<'a>, scope: ScopeId) -> (r:
        Result<(), Error>)
        requires
            old(state).wf(),
            old(lexer)@.wf(),
            scope.0 < old(state)@.scopes.scopes.len(),
        ensures
            final(state).wf(),
            at_rest(old(state)@) ==> at_rest(final(state)@),
            final(lexer)@.wf(),
            final(lexer)@.same_file(old(lexer)@),
            final(lexer)@.ofs >= old(lexer)@.ofs,
            final(state)@.scopes.scopes.len() >= old(state)@.scopes.scopes.len(),
            final(self).opts() == old(self).opts(),
            statement_parsed_as(
                r,
                final(state)@,
                final(self).warned(),
                final(lexer)@,
                edge_at(
                    old(self).parsed(old(state)@),
                    scope,
                    old(lexer)@,
                    old(self).opts(),
                ),
            ),
    {
        proof {
            reveal(edge_at);
        }
        let ghost p = self.parsed(state@);
        let h = match parse_header(state, scope, lexer) {
            Err(e) => {
                return Err(e);
            },
            Ok(h) => h,
        };
        let ghost l1 = lexer@;
        proof {
            lemma_after_token(l1);
        }
        let mut own = scope;
        if lexer.peek_token(Token::Indent) {
            own = state.new_child_scope(scope);
            match parse_edge_lines(state, lexer, scope, own) {
                Err(e) => {
                    return Err(e);
                },
                Ok(_) => {},
            }
        }
        let ghost s = state@;
        assert(s == (StateView { scopes: s.scopes, ..p.state }));
        let edge = match connect_edge(state, lexer, own, &h) {
            Err(e) => {
                return Err(e);
            },
            Ok(id) => id,
        };
        let ghost p1 = self.parsed(state@);
        if self.options.phony_cycle_action == PhonyCycleAction::Warn && state.edge(
            edge,
        ).maybe_phonycycle_diagnostic() {
            proof {
                state.lemma_wf();
                assert(state@.edge_ok(state@.edges[edge.0 as int]));
            }
            let out = state.edge(edge).outputs()[0];
            assert(out == state@.edges[edge.0 as int].outputs[0]);
            if contains_node(state.edge(edge).inputs(), out) {
                let path = state.node(out).path_shared();
                state.drop_input(edge, out);
                let m = quoted(
                    "phony target '",
                    path.as_str(),
                    "' names itself as an input; ignoring [-w phonycycle=warn]",
                );
                self.warn(m);
            }
        }
        assert(self.parsed(state@) == self_reference_dropped(p1, edge.0 as int, self.opts()));
        note_dyndep(state, lexer, edge)
    }

    fn parse_variable<'a>(&mut self, state: &mut State, lexer: &mut Lexer<'a>, scope: ScopeId) -> (r:
        Result<(), Error>)
        requires
            old(state).wf(),
            old(lexer)@.wf(),
            scope.0 < old(state)@.scopes.scopes.len(),
        ensures
            final(state).wf(),
            at_rest(old(state)@) ==> at_rest(final(state)@),
            final(lexer)@.wf(),
            final(lexer)@.same_file(old(lexer)@),
            r is Ok ==> final(lexer)@.ofs > old(lexer)@.ofs,
            final(lexer)@.ofs >= old(lexer)@.ofs,
            final(state)@.scopes.scopes.len() >= old(state)@.scopes.scopes.len(),
            final(self).opts() == old(self).opts(),
            statement_parsed_as(
                r,
                final(state)@,
                final(self).warned(),
                final(lexer)@,
                variable_at(
                    old(self).parsed(old(state)@),
                    scope.0 as int,
                    old(lexer)@,
                    old(self).opts().quiet,
                ),
            ),
    {
        proof {
            reveal(variable_at);
        }
        let (name, let_value) = match parse_let(lexer) {
            Err(e) => {
                return Err(e);
            },
            Ok(kv) => kv,
        };
        let value = state.scopes().expand(scope, &let_value);
        // Check the required version immediately, before we can hit any syntax
        // the manifest expects us to understand.
        if str_eq(name.as_str(), "ninja_required_version") {
            match check_required_version(value.as_str()) {
                Ok(Some(w)) => {
                    self.warn(w);
                },
                Ok(None) => {},
                Err(e) => {
                    return Err(Error::Fatal(e));
                },
            }
        }
        state.add_binding(scope, name, value);
        Ok(())
    }
}

fn rule_binds(rule: &Rule, key: &str) -> (r: bool)
    ensures
        r == binds(rule@, key@),
{
    match rule.binding(key) {
        Some(e) => !e.is_empty(),
        None => false,
    }
}

fn parse_rule_lines<'a>(lexer: &mut Lexer<'a>, name: String) -> (r: Result<Rule, Error>)
    requires
        old(lexer)@.wf(),
    ensures
        final(lexer)@.wf(),
        final(lexer)@.same_file(old(lexer)@),
        final(lexer)@.ofs >= old(lexer)@.ofs,
        match (
            r,
            rule_lines(
                old(lexer)@,
                (RuleView { name: name@, bindings: Seq::empty(), phony: false }),
            ),
        ) {
            (Ok(v), Ok((w, l))) => v@ == w && final(lexer)@ == l,
            (Err(e), Err(f)) => e@ == f,
            _ => false,
        },
{
    let mut rule = Rule::new(name);
    let ghost want = rule_lines(lexer@, rule@);
    let ghost mut here = lexer@;
    proof {
        lemma_after_token(lexer@);
    }
    let mut more: bool = lexer.peek_token(Token::Indent);
    while more
        invariant
            here.wf(),
            lexer@.wf(),
            lexer@.same_file(old(lexer)@),
            lexer@.ofs >= old(lexer)@.ofs,
            lexer@ == here.after_peek(Token::Indent),
            lexer@.input == here.input,
            more == (here.next() == Token::Indent),
            more ==> lexer@.ofs > here.ofs,
            rule_lines(here, rule@) == want,
            want == rule_lines(
                old(lexer)@,
                (RuleView { name: name@, bindings: Seq::empty(), phony: false }),
            ),
        decreases here.input.len() - here.ofs,
    {
        proof {
            lemma_let(lexer@);
        }
        let (key, value) = match parse_let(lexer) {
            Err(e) => {
                return Err(e);
            },
            Ok(kv) => kv,
        };
        if !Rule::is_reserved_binding(key.as_str()) {
            let m = unexpected_variable(key.as_str());
            return Err(lexer.error(m.as_str()));
        }
        rule.add_binding(key, value);
        proof {
            here = lexer@;
            lemma_after_token(here);
        }
        more = lexer.peek_token(Token::Indent);
    }
    Ok(rule)
}

fn parse_edge_lines<'a>(state: &mut State, lexer: &mut Lexer<'a>, scope: ScopeId, own: ScopeId) -> (r:
    Result<(), Error>)
    requires
        old(state).wf(),
        old(lexer)@.wf(),
        scope.0 < old(state)@.scopes.scopes.len(),
        own.0 < old(state)@.scopes.scopes.len(),
    ensures
        final(state).wf(),
        at_rest(old(state)@) ==> at_rest(final(state)@),
        final(lexer)@.wf(),
        final(lexer)@.same_file(old(lexer)@),
        final(lexer)@.ofs >= old(lexer)@.ofs,
        final(state)@ == (StateView { scopes: final(state)@.scopes, ..old(state)@ }),
        final(state)@.scopes.scopes.len() == old(state)@.scopes.scopes.len(),
        final(state)@.scopes.rules == old(state)@.scopes.rules,
        match (r, edge_lines(old(state)@.scopes, scope.0 as int, own.0 as int, old(lexer)@)) {
            (Ok(_), Ok((s, l))) => final(state)@.scopes == s && final(lexer)@ == l,
            (Err(e), Err((f, s))) => e@ == f && final(state)@.scopes == s,
            _ => false,
        },
{
    let ghost want = edge_lines(state@.scopes, scope.0 as int, own.0 as int, lexer@);
    let mut more: bool = true;
    while more
        invariant
            state.wf(),
            at_rest(old(state)@) ==> at_rest(state@),
            lexer@.wf(),
            lexer@.same_file(old(lexer)@),
            lexer@.ofs >= old(lexer)@.ofs,
            scope.0 < state@.scopes.scopes.len(),
            own.0 < state@.scopes.scopes.len(),
            state@ == (StateView { scopes: state@.scopes, ..old(state)@ }),
            state@.scopes.scopes.len() == old(state)@.scopes.scopes.len(),
            state@.scopes.rules == old(state)@.scopes.rules,
            want == edge_lines(old(state)@.scopes, scope.0 as int, own.0 as int, old(lexer)@),
            more ==> edge_lines(state@.scopes, scope.0 as int, own.0 as int, lexer@) == want,
            !more ==> want == Ok::<(ScopesView, LexerView), (ErrorView, ScopesView)>((state@.scopes, lexer@)),
        decreases (if more {
            1int
        } else {
            0int
        }) + lexer@.input.len() - lexer@.ofs,
    {
        proof {
            lemma_let(lexer@);
        }
        let (key, val) = match parse_let(lexer) {
            Err(e) => {
                return Err(e);
            },
            Ok(kv) => kv,
        };
        let value = state.scopes().expand(scope, &val);
        state.add_binding(own, key, value);
        proof {
            lemma_after_token(lexer@);
        }
        more = lexer.peek_token(Token::Indent);
    }
    Ok(())
}

impl ManifestParser {
    fn load_file<'a, D: DiskInterface>(
        &mut self,
        state: &mut State,
        disk: &D,
        filename: &str,
        scope: ScopeId,
        parent: Option<&Lexer<'a>>,
        depth: usize,
    ) -> (r: Result<(), Error>)
        requires
            old(state).wf(),
            scope.0 < old(state)@.scopes.scopes.len(),
            parent matches Some(l) ==> l@.wf(),
        ensures
            final(state).wf(),
            at_rest(old(state)@) ==> at_rest(final(state)@),
            final(state)@.scopes.scopes.len() >= old(state)@.scopes.scopes.len(),
            final(self).opts() == old(self).opts(),
            parsed_as(
                r,
                final(state)@,
                final(self).warned(),
                loaded(
                    files_of::<D>(disk.model()),
                    old(self).opts(),
                    old(self).parsed(old(state)@),
                    filename@,
                    scope,
                    (match parent {
                        Some(l) => Some(l@),
                        None => None,
                    }),
                    depth as nat,
                ),
            ),
        decreases depth, 3nat,
    {
        let contents = match disk.read_file(filename) {
            Ok(Some(c)) => c,
            Ok(None) => {
                let m = quoted("loading '", filename, "': No such file or directory");
                return Err(
                    match parent {
                        Some(l) => l.error(m.as_str()),
                        None => Error::Manifest(m),
                    },
                );
            },
            Err(e) => {
                let mut m = quoted("loading '", filename, "': ");
                m.append(e.message().as_str());
                return Err(
                    match parent {
                        Some(l) => l.error(m.as_str()),
                        None => Error::Manifest(m),
                    },
                );
            },
        };
        self.parse(state, disk, filename, contents.as_slice(), scope, depth)
    }

    fn parse<D: DiskInterface>(
        &mut self,
        state: &mut State,
        disk: &D,
        filename: &str,
        input: &[u8],
        scope: ScopeId,
        depth: usize,
    ) -> (r: Result<(), Error>)
        requires
            old(state).wf(),
            scope.0 < old(state)@.scopes.scopes.len(),
        ensures
            final(state).wf(),
            at_rest(old(state)@) ==> at_rest(final(state)@),
            final(state)@.scopes.scopes.len() >= old(state)@.scopes.scopes.len(),
            final(self).opts() == old(self).opts(),
            parsed_as(
                r,
                final(state)@,
                final(self).warned(),
                statements(
                    files_of::<D>(disk.model()),
                    old(self).opts(),
                    old(self).parsed(old(state)@),
                    scope,
                    (LexerView { filename: filename@, input: input@, ofs: 0, last: None }),
                    depth as nat,
                ),
            ),
        decreases depth, 2nat,
    {
        let mut lexer = Lexer::new(filename.to_owned(), input);
        let ghost files = files_of::<D>(disk.model());
        let ghost options = self.opts();
        let ghost want = statements(
            files,
            options,
            self.parsed(state@),
            scope,
            lexer@,
            depth as nat,
        );
        loop
            invariant
                state.wf(),
                at_rest(old(state)@) ==> at_rest(state@),
                lexer@.wf(),
                scope.0 < state@.scopes.scopes.len(),
                state@.scopes.scopes.len() >= old(state)@.scopes.scopes.len(),
                files == files_of::<D>(disk.model()),
                options == old(self).opts(),
                self.opts() == options,
                want == statements(
                    files_of::<D>(disk.model()),
                    old(self).opts(),
                    old(self).parsed(old(state)@),
                    scope,
                    (LexerView { filename: filename@, input: input@, ofs: 0, last: None }),
                    depth as nat,
                ),
                statements(
                    files,
                    options,
                    self.parsed(state@),
                    scope,
                    lexer@,
                    depth as nat,
                ) == want,
            decreases lexer@.input.len() - lexer@.ofs,
        {
            let ghost l = lexer@;
            let ghost p = self.parsed(state@);
            proof {
                lemma_after_token(l);
            }
            let token = lexer.read_token();
            let ghost l1 = lexer@;
            let r = if token == Token::Eof {
                return Ok(());
            } else if token == Token::Error {
                let msg = lexer.describe_last_error();
                return Err(lexer.error(msg.as_str()));
            } else if token == Token::Pool {
                self.parse_pool(state, &mut lexer, scope)
            } else if token == Token::Build {
                self.parse_edge(state, &mut lexer, scope)
            } else if token == Token::Rule {
                self.parse_rule(state, &mut lexer, scope)
            } else if token == Token::Default {
                self.parse_default(state, &mut lexer, scope)
            } else if token == Token::Ident {
                lexer.unread_token();
                self.parse_variable(state, &mut lexer, scope)
            } else if token == Token::Include {
                self.parse_file_include(state, disk, &mut lexer, scope, false, depth)
            } else if token == Token::Subninja {
                self.parse_file_include(state, disk, &mut lexer, scope, true, depth)
            } else if token == Token::Newline {
                Ok(())
            } else {
                let mut m = String::new();
                m.append("unexpected ");
                m.append(token.name());
                assert(m@ =~= "unexpected "@ + token_name(token));
                Err(lexer.error(m.as_str()))
            };
            match r {
                Err(e) => {
                    return Err(e);
                },
                Ok(_) => {},
            }
        }
    }

    fn parse_file_include<'a, D: DiskInterface>(
        &mut self,
        state: &mut State,
        disk: &D,
        lexer: &mut Lexer<'a>,
        scope: ScopeId,
        new_scope: bool,
        depth: usize,
    ) -> (r: Result<(), Error>)
        requires
            old(state).wf(),
            old(lexer)@.wf(),
            scope.0 < old(state)@.scopes.scopes.len(),
        ensures
            final(state).wf(),
            at_rest(old(state)@) ==> at_rest(final(state)@),
            final(lexer)@.wf(),
            final(lexer)@.same_file(old(lexer)@),
            final(lexer)@.ofs >= old(lexer)@.ofs,
            final(state)@.scopes.scopes.len() >= old(state)@.scopes.scopes.len(),
            final(self).opts() == old(self).opts(),
            statement_parsed_as(
                r,
                final(state)@,
                final(self).warned(),
                final(lexer)@,
                file_at(
                    files_of::<D>(disk.model()),
                    old(self).opts(),
                    old(self).parsed(old(state)@),
                    scope,
                    old(lexer)@,
                    new_scope,
                    depth as nat,
                ),
            ),
        decreases depth, 1nat,
    {
        let mut eval = EvalString::new();
        match lexer.read_path(&mut eval) {
            Err(e) => {
                return Err(e);
            },
            Ok(_) => {},
        }
        let path = state.scopes().expand(scope, &eval);
        let sub_scope = if new_scope {
            state.new_child_scope(scope)
        } else {
            scope
        };
        if depth == 0 {
            return Err(lexer.error("manifests are nested too deeply"));
        }
        match self.load_file(
            state,
            disk,
            path.as_str(),
            sub_scope,
            Some(&*lexer),
            depth - 1,
        ) {
            Err(e) => {
                return Err(e);
            },
            Ok(_) => {},
        }
        lexer.expect_token(Token::Newline)
    }
}

/// Whether the nodes have the paths that the tokens expand to, in order.
pub open spec fn are_paths(s: StateView, own: int, toks: PathToks, nodes: Seq<NodeId>) -> bool {
    &&& nodes.len() == toks.len()
    &&& forall|k: int|
        0 <= k < toks.len() ==> (#[trigger] nodes[k]).0 < s.nodes.len()
            && s.nodes[nodes[k].0 as int].path == canonical(s.scopes.expand(own, toks[k]))
}

/// Whether nothing but edge `x` and what nodes say of it has changed.
pub open spec fn only_joined(s: StateView, t: StateView, x: EdgeId) -> bool {
    &&& t.scopes == s.scopes
    &&& t.pools == s.pools
    &&& t.defaults == s.defaults
    &&& t.edges.len() == s.edges.len()
    &&& s.nodes.len() <= t.nodes.len()
    &&& forall|e: int| 0 <= e < s.edges.len() && e != x.0 ==> #[trigger] t.edges[e] == s.edges[e]
    &&& forall|n: int|
        0 <= n < s.nodes.len() ==> {
            &&& (#[trigger] t.nodes[n]).path == s.nodes[n].path
            &&& t.nodes[n].in_edge == s.nodes[n].in_edge || (s.nodes[n].in_edge is None
                && t.nodes[n].in_edge == Some(x))
            &&& forall|y: EdgeId| s.nodes[n].out_edges.contains(y) ==> #[trigger] t.nodes[n].out_edges.contains(y)
        }
    &&& forall|n: int|
        s.nodes.len() <= n < t.nodes.len() ==> (#[trigger] t.nodes[n]).in_edge is None
            || t.nodes[n].in_edge == Some(x)
}

proof fn lemma_only_joined_twice(s: StateView, t: StateView, u: StateView, x: EdgeId)
    requires
        only_joined(s, t, x),
        only_joined(t, u, x),
    ensures
        only_joined(s, u, x),
{
    assert forall|n: int| 0 <= n < s.nodes.len() implies {
        &&& (#[trigger] u.nodes[n]).path == s.nodes[n].path
        &&& u.nodes[n].in_edge == s.nodes[n].in_edge || (s.nodes[n].in_edge is None
            && u.nodes[n].in_edge == Some(x))
        &&& forall|y: EdgeId| s.nodes[n].out_edges.contains(y) ==> #[trigger] u.nodes[n].out_edges.contains(y)
    } by {
        assert(t.nodes[n].path == s.nodes[n].path);
        assert forall|y: EdgeId| s.nodes[n].out_edges.contains(y) implies #[trigger] u.nodes[n].out_edges.contains(y) by {
            assert(t.nodes[n].out_edges.contains(y));
        }
    }
    assert forall|n: int| s.nodes.len() <= n < u.nodes.len() implies (
    #[trigger] u.nodes[n]).in_edge is None || u.nodes[n].in_edge == Some(x) by {
        if n < t.nodes.len() {
            assert(t.nodes[n].in_edge is None || t.nodes[n].in_edge == Some(x));
        }
    }
    assert forall|e: int| 0 <= e < s.edges.len() && e != x.0 implies #[trigger] u.edges[e]
        == s.edges[e] by {
        assert(t.edges[e] == s.edges[e]);
    }
}

proof fn lemma_joined_node(s: StateView, path: Seq<char>)
    requires
        s.nodes.len() < usize::MAX,
    ensures
        ({
            let t = s.interned(path, 0);
            let n = s.id_of(path).0 as int;
            &&& 0 <= n < t.nodes.len()
            &&& t.nodes[n].path == path
            &&& t.edges == s.edges
            &&& s.nodes.len() <= t.nodes.len() <= s.nodes.len() + 1
            &&& forall|i: int| 0 <= i < s.nodes.len() ==> #[trigger] t.nodes[i] == s.nodes[i]
            &&& n >= s.nodes.len() ==> t.nodes[n].in_edge is None
            &&& t.scopes == s.scopes && t.pools == s.pools && t.defaults == s.defaults
            &&& s.find_node(path) == (if n < s.nodes.len() {
                Some(s.id_of(path))
            } else {
                None
            })
        }),
{
    crate::state::lemma_node_index(s.nodes, path, 0);
}

proof fn lemma_are_paths_later(
    s: StateView,
    t: StateView,
    x: EdgeId,
    own: int,
    toks: PathToks,
    nodes: Seq<NodeId>,
)
    requires
        only_joined(s, t, x),
        are_paths(s, own, toks, nodes),
    ensures
        are_paths(t, own, toks, nodes),
{
    assert forall|k: int| 0 <= k < toks.len() implies (#[trigger] nodes[k]).0 < t.nodes.len()
        && t.nodes[nodes[k].0 as int].path == canonical(t.scopes.expand(own, toks[k])) by {
        assert(t.nodes[nodes[k].0 as int].path == s.nodes[nodes[k].0 as int].path);
    }
}

proof fn lemma_outs_joined(s: StateView, x: EdgeId, own: int, outs: PathToks, k: int)
    requires
        x.0 < s.edges.len(),
        0 <= k <= outs.len(),
        s.nodes.len() + (outs.len() - k) <= usize::MAX,
        are_paths(s, own, outs.take(k), s.edges[x.0 as int].outputs),
        forall|j: int|
            0 <= j < k ==> s.nodes[(#[trigger] s.edges[x.0 as int].outputs[j]).0 as int].in_edge
                == Some(x),
    ensures
        outs_connected(s, x, own, outs, k) matches Ok(t) ==> {
            let e = t.edges[x.0 as int];
            &&& only_joined(s, t, x)
            &&& t.nodes.len() <= s.nodes.len() + (outs.len() - k)
            &&& e == (EdgeView { outputs: e.outputs, ..s.edges[x.0 as int] })
            &&& are_paths(t, own, outs, e.outputs)
            &&& forall|j: int|
                0 <= j < outs.len() ==> t.nodes[(#[trigger] e.outputs[j]).0 as int].in_edge == Some(
                    x,
                )
        },
    decreases outs.len() - k,
{
    if k < outs.len() {
        let path = path_of(s, own, outs[k]);
        if outs_connected(s, x, own, outs, k) is Ok {
            lemma_joined_node(s, path);
            let t = s.out_added(x, path, 0);
            let n = s.id_of(path).0 as int;
            assert(s.out_conflict(x, path) is None);
            let u = s.interned(path, 0);
            assert(u.nodes[n].in_edge is None);
            assert(only_joined(s, t, x));
            let outputs = t.edges[x.0 as int].outputs;
            let before = s.edges[x.0 as int].outputs;
            lemma_are_paths_later(s, t, x, own, outs.take(k), before);
            assert(are_paths(t, own, outs.take(k + 1), outputs)) by {
                assert forall|j: int| 0 <= j < k + 1 implies (#[trigger] outputs[j]).0
                    < t.nodes.len() && t.nodes[outputs[j].0 as int].path == canonical(
                    t.scopes.expand(own, outs.take(k + 1)[j]),
                ) by {
                    if j < k {
                        assert(outputs[j] == before[j]);
                        assert(outs.take(k)[j] == outs.take(k + 1)[j]);
                    }
                }
            }
            assert forall|j: int| 0 <= j < k + 1 implies t.nodes[(
            #[trigger] t.edges[x.0 as int].outputs[j]).0 as int].in_edge == Some(x) by {
                if j < k {
                    assert(outputs[j] == before[j]);
                    assert(s.nodes[s.edges[x.0 as int].outputs[j].0 as int].in_edge == Some(x));
                }
            }
            lemma_outs_joined(t, x, own, outs, k + 1);
            let v = outs_connected(t, x, own, outs, k + 1)->Ok_0;
            lemma_only_joined_twice(s, t, v, x);
        }
    } else {
        assert(outs.take(k) =~= outs);
        assert(only_joined(s, s, x));
    }
}

proof fn lemma_ins_joined(s: StateView, x: EdgeId, own: int, ins: PathToks, k: int)
    requires
        x.0 < s.edges.len(),
        0 <= k <= ins.len(),
        s.nodes.len() + (ins.len() - k) <= usize::MAX,
        are_paths(s, own, ins.take(k), s.edges[x.0 as int].inputs),
        forall|j: int|
            0 <= j < k ==> s.nodes[(
            #[trigger] s.edges[x.0 as int].inputs[j]).0 as int].out_edges.contains(x),
    ensures
        ins_connected(s, x, own, ins, k) matches Ok(t) ==> {
            let e = t.edges[x.0 as int];
            &&& only_joined(s, t, x)
            &&& t.nodes.len() <= s.nodes.len() + (ins.len() - k)
            &&& e == (EdgeView { inputs: e.inputs, ..s.edges[x.0 as int] })
            &&& forall|n: int| 0 <= n < s.nodes.len() ==> (#[trigger] t.nodes[n]).in_edge
                == s.nodes[n].in_edge
            &&& are_paths(t, own, ins, e.inputs)
            &&& forall|j: int|
                0 <= j < ins.len() ==> t.nodes[(
                #[trigger] e.inputs[j]).0 as int].out_edges.contains(x)
        },
    decreases ins.len() - k,
{
    if k < ins.len() {
        let path = path_of(s, own, ins[k]);
        if ins_connected(s, x, own, ins, k) is Ok {
            lemma_joined_node(s, path);
            let t = s.in_added(x, path, 0);
            let n = s.id_of(path).0 as int;
            let u = s.interned(path, 0);
            assert forall|y: EdgeId| u.nodes[n].out_edges.contains(y) implies #[trigger] t.nodes[n].out_edges.contains(y) by {
                let i = choose|i: int|
                    0 <= i < u.nodes[n].out_edges.len() && u.nodes[n].out_edges[i] == y;
                assert(t.nodes[n].out_edges[i] == y);
            }
            assert(t.nodes[n].out_edges.last() == x);
            assert(t.nodes[n].out_edges.contains(x)) by {
                assert(t.nodes[n].out_edges[u.nodes[n].out_edges.len() as int] == x);
            }
            assert(only_joined(s, t, x));
            let inputs = t.edges[x.0 as int].inputs;
            let before = s.edges[x.0 as int].inputs;
            lemma_are_paths_later(s, t, x, own, ins.take(k), before);
            assert(are_paths(t, own, ins.take(k + 1), inputs)) by {
                assert forall|j: int| 0 <= j < k + 1 implies (#[trigger] inputs[j]).0
                    < t.nodes.len() && t.nodes[inputs[j].0 as int].path == canonical(
                    t.scopes.expand(own, ins.take(k + 1)[j]),
                ) by {
                    if j < k {
                        assert(inputs[j] == before[j]);
                        assert(ins.take(k)[j] == ins.take(k + 1)[j]);
                    }
                }
            }
            assert forall|j: int| 0 <= j < k + 1 implies t.nodes[(
            #[trigger] t.edges[x.0 as int].inputs[j]).0 as int].out_edges.contains(x) by {
                if j < k {
                    assert(inputs[j] == before[j]);
                    assert(s.nodes[s.edges[x.0 as int].inputs[j].0 as int].out_edges.contains(x));
                }
            }
            lemma_ins_joined(t, x, own, ins, k + 1);
            let v = ins_connected(t, x, own, ins, k + 1)->Ok_0;
            lemma_only_joined_twice(s, t, v, x);
            assert forall|i: int| 0 <= i < s.nodes.len() implies (#[trigger] v.nodes[i]).in_edge
                == s.nodes[i].in_edge by {
                assert(t.nodes[i].in_edge == s.nodes[i].in_edge);
            }
        }
    } else {
        assert(ins.take(k) =~= ins);
        assert(only_joined(s, s, x));
    }
}

proof fn lemma_validations_joined(s: StateView, x: EdgeId, own: int, v: PathToks, k: int)
    requires
        x.0 < s.edges.len(),
        0 <= k <= v.len(),
        s.nodes.len() + (v.len() - k) <= usize::MAX,
        are_paths(s, own, v.take(k), s.edges[x.0 as int].validations),
    ensures
        validations_connected(s, x, own, v, k) matches Ok(t) ==> {
            let e = t.edges[x.0 as int];
            &&& only_joined(s, t, x)
            &&& e == (EdgeView { validations: e.validations, ..s.edges[x.0 as int] })
            &&& forall|n: int| 0 <= n < s.nodes.len() ==> (#[trigger] t.nodes[n]).in_edge
                == s.nodes[n].in_edge
            &&& are_paths(t, own, v, e.validations)
        },
    decreases v.len() - k,
{
    if k < v.len() {
        let path = path_of(s, own, v[k]);
        if validations_connected(s, x, own, v, k) is Ok {
            lemma_joined_node(s, path);
            let t = s.validation_added(x, path, 0);
            assert(only_joined(s, t, x));
            let now = t.edges[x.0 as int].validations;
            let before = s.edges[x.0 as int].validations;
            lemma_are_paths_later(s, t, x, own, v.take(k), before);
            assert(are_paths(t, own, v.take(k + 1), now)) by {
                assert forall|j: int| 0 <= j < k + 1 implies (#[trigger] now[j]).0 < t.nodes.len()
                    && t.nodes[now[j].0 as int].path == canonical(
                    t.scopes.expand(own, v.take(k + 1)[j]),
                ) by {
                    if j < k {
                        assert(now[j] == before[j]);
                        assert(v.take(k)[j] == v.take(k + 1)[j]);
                    }
                }
            }
            lemma_validations_joined(t, x, own, v, k + 1);
            let u = validations_connected(t, x, own, v, k + 1)->Ok_0;
            lemma_only_joined_twice(s, t, u, x);
            assert forall|i: int| 0 <= i < s.nodes.len() implies (#[trigger] u.nodes[i]).in_edge
                == s.nodes[i].in_edge by {
                assert(t.nodes[i].in_edge == s.nodes[i].in_edge);
            }
        }
    } else {
        assert(v.take(k) =~= v);
        assert(only_joined(s, s, x));
    }
}

/// A `build` statement adds one edge: with the rule and the scope that it names,
/// its outputs, inputs and validations in the order in which they are written, each
/// by its canonical path, and as many implicit and order-only ones as stand behind
/// `|` and `||`. Its outputs, which nothing makes before, are made by it, and its
/// inputs know that it needs them. All other edges, and what makes other files,
/// stay as they are.
pub proof fn law_build_statements_add_edges(s: StateView, own: ScopeId, h: Header)
    requires
        s.edges.len() < usize::MAX,
        s.nodes.len() + h.outs.len() + h.ins.len() + h.validations.len() <= usize::MAX,
        0 <= h.implicit_outs <= usize::MAX,
        0 <= h.implicit <= usize::MAX,
        0 <= h.order_only <= usize::MAX,
    ensures
        edge_connected(s, own, h) matches Ok(t) ==> {
            let n = s.edges.len() as int;
            let x = EdgeId(n as usize);
            let e = t.edges[n];
            &&& t.edges.len() == n + 1
            &&& e.rule == h.rule
            &&& e.scope == own
            &&& are_paths(t, own.0 as int, h.outs, e.outputs)
            &&& are_paths(t, own.0 as int, h.ins, e.inputs)
            &&& are_paths(t, own.0 as int, h.validations, e.validations)
            &&& e.implicit_outs == h.implicit_outs
            &&& e.implicit_deps == h.implicit
            &&& e.order_only_deps == h.order_only
            &&& e.mark == crate::state::VisitMark::Unvisited
            &&& e.dyndep is None
            &&& ({
                let pool = s.edge_added(h.rule, own).binding(n, "pool"@, Escape::Shell);
                &&& pool.len() == 0 ==> e.pool == crate::state::default_pool()
                &&& pool.len() > 0 && s.pools.len() <= usize::MAX ==> e.pool.0 < t.pools.len()
                    && t.pools[e.pool.0 as int].name == pool
            })
            &&& forall|j: int|
                0 <= j < h.outs.len() ==> t.nodes[(
                #[trigger] e.outputs[j]).0 as int].in_edge == Some(x)
            &&& forall|j: int|
                0 <= j < h.ins.len() ==> t.nodes[(
                #[trigger] e.inputs[j]).0 as int].out_edges.contains(x)
            &&& t.scopes == s.scopes
            &&& t.pools == s.pools
            &&& t.defaults == s.defaults
            &&& forall|i: int| 0 <= i < n ==> #[trigger] t.edges[i] == s.edges[i]
            &&& s.nodes.len() <= t.nodes.len()
            &&& forall|i: int|
                0 <= i < s.nodes.len() ==> (#[trigger] t.nodes[i]).path == s.nodes[i].path && (
                t.nodes[i].in_edge == s.nodes[i].in_edge || (s.nodes[i].in_edge is None
                    && t.nodes[i].in_edge == Some(x)))
        },
{
    let n = s.edges.len() as int;
    let x = EdgeId(n as usize);
    let o = own.0 as int;
    if edge_connected(s, own, h) is Ok {
        let s1 = s.edge_added(h.rule, own);
        let pool_name = s1.binding(n, "pool"@, Escape::Shell);
        let s2 = if pool_name.len() > 0 {
            s1.with_edge(n, EdgeView { pool: s1.find_pool(pool_name)->0, ..s1.edges[n] })
        } else {
            s1
        };
        assert(s2.edges[n].outputs.len() == 0 && s2.edges[n].inputs.len() == 0
            && s2.edges[n].validations.len() == 0);
        assert(are_paths(s2, o, h.outs.take(0), s2.edges[n].outputs));
        lemma_outs_joined(s2, x, o, h.outs, 0);
        let s3 = outs_connected(s2, x, o, h.outs, 0)->Ok_0;
        let s4 = s3.with_edge(
            n,
            EdgeView { implicit_outs: h.implicit_outs as usize, ..s3.edges[n] },
        );
        assert(only_joined(s3, s4, x));
        lemma_only_joined_twice(s2, s3, s4, x);
        assert(are_paths(s4, o, h.ins.take(0), s4.edges[n].inputs));
        lemma_ins_joined(s4, x, o, h.ins, 0);
        let s5 = ins_connected(s4, x, o, h.ins, 0)->Ok_0;
        lemma_only_joined_twice(s2, s4, s5, x);
        let s6 = s5.with_edge(
            n,
            EdgeView {
                implicit_deps: h.implicit as usize,
                order_only_deps: h.order_only as usize,
                ..s5.edges[n]
            },
        );
        assert(only_joined(s5, s6, x));
        lemma_only_joined_twice(s2, s5, s6, x);
        assert(are_paths(s6, o, h.validations.take(0), s6.edges[n].validations));
        lemma_validations_joined(s6, x, o, h.validations, 0);
        let t = validations_connected(s6, x, o, h.validations, 0)->Ok_0;
        lemma_only_joined_twice(s2, s6, t, x);
        lemma_only_joined_twice(s4, s5, s6, x);
        lemma_only_joined_twice(s4, s6, t, x);
        let e = t.edges[n];
        lemma_are_paths_later(s3, s4, x, o, h.outs, e.outputs);
        lemma_are_paths_later(s4, t, x, o, h.outs, e.outputs);
        lemma_are_paths_later(s5, s6, x, o, h.ins, e.inputs);
        lemma_are_paths_later(s6, t, x, o, h.ins, e.inputs);
        assert forall|j: int| 0 <= j < h.outs.len() implies t.nodes[(
        #[trigger] e.outputs[j]).0 as int].in_edge == Some(x) by {
            assert(s3.nodes[s3.edges[n].outputs[j].0 as int].in_edge == Some(x));
            let i = e.outputs[j].0 as int;
            assert(s4.nodes[i].in_edge == Some(x));
            assert(t.nodes[i].path == s4.nodes[i].path);
        }
        assert forall|j: int| 0 <= j < h.ins.len() implies t.nodes[(
        #[trigger] e.inputs[j]).0 as int].out_edges.contains(x) by {
            let i = e.inputs[j].0 as int;
            assert(s5.nodes[s5.edges[n].inputs[j].0 as int].out_edges.contains(x));
            assert(s6.nodes[i].out_edges.contains(x));
            assert(t.nodes[i].path == s6.nodes[i].path);
        }
        assert forall|i: int| 0 <= i < n implies #[trigger] t.edges[i] == s.edges[i] by {
            assert(s2.edges[i] == s.edges[i]);
        }
        crate::state::lemma_pool_index(s.pools, pool_name, 0);
    }
}

/// Paths from the `k`-th on as they are written, each before a space.
pub open spec fn names_written(names: Seq<Seq<Part>>, k: int) -> Seq<u8>
    decreases names.len() - k,
{
    if 0 <= k < names.len() {
        parts_written(names[k], 0) + (seq![32u8] + names_written(names, k + 1))
    } else {
        Seq::empty()
    }
}

/// Paths behind a mark, if there are any.
pub open spec fn section_written(mark: Seq<u8>, names: Seq<Seq<Part>>) -> Seq<u8> {
    if names.len() == 0 {
        Seq::empty()
    } else {
        mark + (seq![32u8] + names_written(names, 0))
    }
}

/// Whether the paths can be written, and all say something.
pub open spec fn are_writable(names: Seq<Seq<Part>>) -> bool {
    forall|k: int|
        0 <= k < names.len() ==> can_be_written(#[trigger] names[k], true) && names[k].len() > 0
            && with_parts(Seq::empty(), names[k], 0).len() > 0
}

/// What the paths are read as.
pub open spec fn names_read(names: Seq<Seq<Part>>) -> PathToks {
    Seq::new(names.len(), |k: int| with_parts(Seq::empty(), names[k], 0))
}

proof fn lemma_no_blank(c: Seq<u8>, p: int)
    requires
        0 <= p < c.len(),
        c[p] != 32,
        c[p] != 36 || (p + 1 < c.len() && c[p + 1] != 10 && c[p + 1] != 13),
    ensures
        behind_blanks(c, p) == p,
{
}

proof fn lemma_name_start(c: Seq<u8>, p: int, name: Seq<Part>)
    requires
        can_be_written(name, true),
        name.len() > 0,
        is_at(c, p, parts_written(name, 0)),
    ensures
        behind_blanks(c, p) == p,
        p < c.len(),
{
    let x = name[0];
    let w = part_written(x);
    let rest = parts_written(name, 1);
    assert(name[0] == x);
    lemma_is_at(c, p, w, rest);
    match x {
        Part::Plain(b) => {
            assert(is_ordinary(b[0]));
            assert(c[p + 0] == w[0]);
        },
        Part::Escaped(b) => {
            assert(c[p + 0] == w[0] && c[p + 1] == w[1]);
        },
        Part::Variable(n) => {
            assert(c[p + 0] == w[0] && c[p + 1] == w[1]);
        },
        Part::Mark(_) => {},
    }
    lemma_no_blank(c, p);
}

/// Where `l` goes on at `p`, which was looked at last.
pub open spec fn lexer_at(l: LexerView, p: int) -> LexerView {
    LexerView { ofs: p, last: Some(p), ..l }
}

proof fn lemma_names_read(l: LexerView, names: Seq<Seq<Part>>, k: int, acc: PathToks)
    requires
        l.wf(),
        are_writable(names),
        0 <= k <= names.len(),
        is_at(l.input, l.ofs, names_written(names, k)),
        l.ofs + names_written(names, k).len() < l.input.len(),
        ({
            let b = l.input[l.ofs + names_written(names, k).len()];
            b == 58 || b == 124 || b == 10
        }),
    ensures
        paths_at(l, acc) == Ok::<(PathToks, LexerView), ErrorView>(
            (
                acc + names_read(names).skip(k),
                lexer_at(l, l.ofs + names_written(names, k).len()),
            ),
        ),
    decreases names.len() - k,
{
    let c = l.input;
    let p = l.ofs;
    let e = Seq::<TokView>::empty();
    if k < names.len() {
        let name = names[k];
        let w = parts_written(name, 0);
        let rest = names_written(names, k + 1);
        lemma_is_at(c, p, w, seq![32u8] + rest);
        let q = p + w.len();
        lemma_is_at(c, q, seq![32u8], rest);
        assert(c[q + 0] == seq![32u8][0]);
        law_strings_read_back(c, p, true, e, name, 0);
        crate::lexer::lemma_parts_start(name, true, 0);
        let stop = q + 1 + rest.len();
        assert(behind_blanks(c, q + 1) == q + 1) by {
            if k + 1 < names.len() {
                let w2 = parts_written(names[k + 1], 0);
                lemma_is_at(c, q + 1, w2, seq![32u8] + names_written(names, k + 2));
                assert(names[k + 1] == names[k + 1]);
                lemma_name_start(c, q + 1, names[k + 1]);
            } else {
                lemma_no_blank(c, q + 1);
            }
        }
        assert(behind_blanks(c, q) == q + 1);
        let l1 = l.after_string(true);
        assert(l1.ofs == q + 1);
        let tok = with_parts(e, name, 0);
        assert(names_read(names)[k] == tok);
        lemma_names_read(l1, names, k + 1, acc.push(tok));
        assert(acc.push(tok) + names_read(names).skip(k + 1) =~= acc + names_read(names).skip(k));
    } else {
        lemma_no_blank(c, p);
        assert(acc + names_read(names).skip(k) =~= acc);
        assert(l.string(true, e).toks == e);
    }
}

proof fn lemma_mark_read(c: Seq<u8>, p: int)
    requires
        0 <= p,
        p + 1 < c.len() || (p < c.len() && c[p] == 10),
        c[p] == 58 || c[p] == 10 || (c[p] == 124 && (c[p + 1] == 32 || c[p + 1] == 124 || c[p + 1]
            == 64)),
    ensures
        ({
            let t = token_at(c, p);
            &&& t.start == p
            &&& c[p] == 58 ==> t.token == Token::Colon && t.end == p + 1
            &&& c[p] == 10 ==> t.token == Token::Newline && t.end == p + 1
            &&& c[p] == 124 && c[p + 1] == 32 ==> t.token == Token::Pipe && t.end == p + 1
            &&& c[p] == 124 && c[p + 1] == 124 ==> t.token == Token::Pipe2 && t.end == p + 2
            &&& c[p] == 124 && c[p + 1] == 64 ==> t.token == Token::PipeAt && t.end == p + 2
        }),
{
    lemma_scan(c, p, space());
    assert(!space()(c[p]));
    assert(scan(c, p, space()) == p);
    assert(!name_byte()(c[p]));
    assert(scan(c, p, name_byte()) == p);
}

/// What may come behind a section: another mark, a colon, or the end of the line.
spec fn is_stop(c: Seq<u8>, p: int) -> bool {
    &&& 0 <= p < c.len()
    &&& c[p] == 10 || p + 1 < c.len()
    &&& c[p] == 58 || c[p] == 10 || (c[p] == 124 && (c[p + 1] == 32 || c[p + 1] == 124 || c[p + 1]
        == 64))
}

proof fn lemma_section_read(
    l: LexerView,
    t: Token,
    mark: Seq<u8>,
    names: Seq<Seq<Part>>,
    acc: PathToks,
)
    requires
        l.wf(),
        are_writable(names),
        (t == Token::Pipe && mark == seq![124u8]) || (t == Token::Pipe2 && mark == seq![
            124u8,
            124u8,
        ]) || (t == Token::PipeAt && mark == seq![124u8, 64u8]),
        is_at(l.input, l.ofs, section_written(mark, names)),
        is_stop(l.input, l.ofs + section_written(mark, names).len()),
        names.len() == 0 ==> token_at(l.input, l.ofs).token != t,
    ensures
        ({
            let end = l.ofs + section_written(mark, names).len();
            paths_behind(l, t, acc) == Ok::<(PathToks, LexerView), ErrorView>(
                (acc + names_read(names), lexer_at(l, end)),
            )
        }),
{
    let c = l.input;
    let p = l.ofs;
    if names.len() == 0 {
        lemma_mark_read(c, p);
        assert(acc + names_read(names) =~= acc);
    } else {
        let rest = seq![32u8] + names_written(names, 0);
        lemma_is_at(c, p, mark, rest);
        lemma_is_at(c, p + mark.len(), seq![32u8], names_written(names, 0));
        assert(c[p + 0] == mark[0]);
        assert(c[p + mark.len() + 0] == seq![32u8][0]);
        if mark.len() == 2 {
            assert(c[p + 1] == mark[1]);
        }
        lemma_mark_read(c, p);
        let q = p + mark.len() + 1;
        let w = parts_written(names[0], 0);
        lemma_is_at(c, q, w, seq![32u8] + names_written(names, 1));
        lemma_name_start(c, q, names[0]);
        assert(behind_blanks(c, p + mark.len()) == q);
        let l1 = l.after_peek(t);
        assert(l1.ofs == q);
        lemma_names_read(l1, names, 0, acc);
        assert(names_read(names).skip(0) =~= names_read(names));
    }
}

/// The first line of a `build` statement as it is written, behind the word
/// `build`: outputs, implicit outputs behind `|`, a colon, the rule, inputs,
/// implicit ones behind `|`, order-only ones behind `||`, and validations behind
/// `|@`.
pub open spec fn header_written(
    outs: Seq<Seq<Part>>,
    more_outs: Seq<Seq<Part>>,
    rule: Seq<u8>,
    ins: Seq<Seq<Part>>,
    implicit: Seq<Seq<Part>>,
    order_only: Seq<Seq<Part>>,
    validations: Seq<Seq<Part>>,
) -> Seq<u8> {
    names_written(outs, 0) + (section_written(seq![124u8], more_outs) + (seq![58u8, 32u8] + (rule + (
    seq![32u8] + (names_written(ins, 0) + (section_written(seq![124u8], implicit) + (
    section_written(seq![124u8, 124u8], order_only) + (section_written(
        seq![124u8, 64u8],
        validations,
    ) + seq![10u8]))))))))
}

proof fn lemma_section_start(c: Seq<u8>, p: int, mark: Seq<u8>, names: Seq<Seq<Part>>)
    requires
        is_at(c, p, section_written(mark, names)),
        names.len() > 0,
        mark == seq![124u8] || mark == seq![124u8, 124u8] || mark == seq![124u8, 64u8],
    ensures
        is_stop(c, p),
        c[p] == 124,
        c[p + 1] == (if mark.len() == 1 {
            32u8
        } else {
            mark[1]
        }),
{
    let w = section_written(mark, names);
    assert(w =~= mark + (seq![32u8] + names_written(names, 0)));
    assert(c[p + 0] == w[0] && c[p + 1] == w[1]);
}

proof fn lemma_outs_read(l: LexerView, outs: Seq<Seq<Part>>, more_outs: Seq<Seq<Part>>)
    requires
        l.wf(),
        are_writable(outs),
        are_writable(more_outs),
        is_at(
            l.input,
            l.ofs,
            names_written(outs, 0) + section_written(seq![124u8], more_outs),
        ),
        ({
            let end = l.ofs + names_written(outs, 0).len() + section_written(
                seq![124u8],
                more_outs,
            ).len();
            end + 1 < l.input.len() && l.input[end] == 58
        }),
    ensures
        ({
            let end = l.ofs + names_written(outs, 0).len() + section_written(
                seq![124u8],
                more_outs,
            ).len();
            outs_at(l) == Ok::<(PathToks, int, LexerView), ErrorView>(
                (names_read(outs) + names_read(more_outs), outs.len() as int, lexer_at(l, end)),
            )
        }),
{
    let c = l.input;
    let none = Seq::<Seq<TokView>>::empty();
    let t1 = names_written(outs, 0);
    let t2 = section_written(seq![124u8], more_outs);
    let p2 = l.ofs + t1.len();
    lemma_is_at(c, l.ofs, t1, t2);
    assert(is_stop(c, p2 + t2.len()));
    assert(is_stop(c, p2)) by {
        if more_outs.len() > 0 {
            lemma_section_start(c, p2, seq![124u8], more_outs);
        }
    }
    lemma_names_read(l, outs, 0, none);
    assert(none + names_read(outs).skip(0) =~= names_read(outs));
    if more_outs.len() == 0 {
        lemma_mark_read(c, p2);
    }
    lemma_section_read(lexer_at(l, p2), Token::Pipe, seq![124u8], more_outs, names_read(outs));
}

proof fn lemma_ins_read(
    l: LexerView,
    ins: Seq<Seq<Part>>,
    implicit: Seq<Seq<Part>>,
    order_only: Seq<Seq<Part>>,
    validations: Seq<Seq<Part>>,
)
    requires
        l.wf(),
        are_writable(ins),
        are_writable(implicit),
        are_writable(order_only),
        are_writable(validations),
        is_at(
            l.input,
            l.ofs,
            names_written(ins, 0) + (section_written(seq![124u8], implicit) + (section_written(
                seq![124u8, 124u8],
                order_only,
            ) + (section_written(seq![124u8, 64u8], validations) + seq![10u8]))),
        ),
    ensures
        ({
            let end = l.ofs + names_written(ins, 0).len() + section_written(
                seq![124u8],
                implicit,
            ).len() + section_written(seq![124u8, 124u8], order_only).len() + section_written(
                seq![124u8, 64u8],
                validations,
            ).len();
            &&& end < l.input.len()
            &&& l.input[end] == 10
            &&& ins_at(l) == Ok::<(PathToks, int, int, PathToks, LexerView), ErrorView>(
                (
                    names_read(ins) + names_read(implicit) + names_read(order_only),
                    ins.len() as int,
                    (ins.len() + implicit.len()) as int,
                    names_read(validations),
                    lexer_at(l, end),
                ),
            )
        }),
{
    let c = l.input;
    let none = Seq::<Seq<TokView>>::empty();
    let t6 = names_written(ins, 0);
    let t7 = section_written(seq![124u8], implicit);
    let t8 = section_written(seq![124u8, 124u8], order_only);
    let t9 = section_written(seq![124u8, 64u8], validations);
    let t10 = seq![10u8];
    let p6 = l.ofs;
    let p7 = p6 + t6.len();
    let p8 = p7 + t7.len();
    let p9 = p8 + t8.len();
    let p10 = p9 + t9.len();
    lemma_is_at(c, p6, t6, t7 + (t8 + (t9 + t10)));
    lemma_is_at(c, p7, t7, t8 + (t9 + t10));
    lemma_is_at(c, p8, t8, t9 + t10);
    lemma_is_at(c, p9, t9, t10);
    assert(c[p10 + 0] == t10[0]);
    assert(is_stop(c, p10));
    assert(is_stop(c, p9)) by {
        if validations.len() > 0 {
            lemma_section_start(c, p9, seq![124u8, 64u8], validations);
        }
    }
    assert(is_stop(c, p8)) by {
        if order_only.len() > 0 {
            lemma_section_start(c, p8, seq![124u8, 124u8], order_only);
        }
    }
    assert(is_stop(c, p7)) by {
        if implicit.len() > 0 {
            lemma_section_start(c, p7, seq![124u8], implicit);
        }
    }
    lemma_names_read(l, ins, 0, none);
    assert(none + names_read(ins).skip(0) =~= names_read(ins));
    if implicit.len() == 0 {
        if order_only.len() > 0 {
            lemma_section_start(c, p8, seq![124u8, 124u8], order_only);
        } else if validations.len() > 0 {
            lemma_section_start(c, p9, seq![124u8, 64u8], validations);
        }
        lemma_mark_read(c, p7);
    }
    lemma_section_read(lexer_at(l, p7), Token::Pipe, seq![124u8], implicit, names_read(ins));
    if order_only.len() == 0 {
        if validations.len() > 0 {
            lemma_section_start(c, p9, seq![124u8, 64u8], validations);
        }
        lemma_mark_read(c, p8);
    }
    let all = names_read(ins) + names_read(implicit);
    lemma_section_read(lexer_at(l, p8), Token::Pipe2, seq![124u8, 124u8], order_only, all);
    if validations.len() == 0 {
        lemma_mark_read(c, p9);
    }
    lemma_section_read(lexer_at(l, p9), Token::PipeAt, seq![124u8, 64u8], validations, none);
    assert(none + names_read(validations) =~= names_read(validations));
}

/// The first line of a `build` statement is read as it is written: the outputs,
/// the rule, and the inputs and validations, in order, and how many of them stand
/// behind each mark.
#[verifier::spinoff_prover]
#[verifier::rlimit(100)]
pub proof fn law_build_lines_read_back(
    s: ScopesView,
    scope: int,
    l: LexerView,
    outs: Seq<Seq<Part>>,
    more_outs: Seq<Seq<Part>>,
    rule: Seq<u8>,
    ins: Seq<Seq<Part>>,
    implicit: Seq<Seq<Part>>,
    order_only: Seq<Seq<Part>>,
    validations: Seq<Seq<Part>>,
)
    requires
        l.wf(),
        outs.len() > 0,
        are_writable(outs),
        are_writable(more_outs),
        are_writable(ins),
        are_writable(implicit),
        are_writable(order_only),
        are_writable(validations),
        rule.len() > 0,
        forall|k: int| 0 <= k < rule.len() ==> is_word_byte(#[trigger] rule[k]),
        s.find_rule(scope, utf8_lossy(rule)) is Some,
        is_at(
            l.input,
            l.ofs,
            header_written(outs, more_outs, rule, ins, implicit, order_only, validations),
        ),
    ensures
        header_at(s, scope, l) matches Ok((h, m)) && {
            &&& h.outs == names_read(outs) + names_read(more_outs)
            &&& h.implicit_outs == more_outs.len()
            &&& Some(h.rule) == s.find_rule(scope, utf8_lossy(rule))
            &&& h.ins == names_read(ins) + names_read(implicit) + names_read(order_only)
            &&& h.implicit == implicit.len()
            &&& h.order_only == order_only.len()
            &&& h.validations == names_read(validations)
            &&& m.ofs == l.ofs + header_written(
                outs,
                more_outs,
                rule,
                ins,
                implicit,
                order_only,
                validations,
            ).len()
            &&& m.input == l.input
        },
{
    let c = l.input;
    let t1 = names_written(outs, 0);
    let t2 = section_written(seq![124u8], more_outs);
    let t3 = seq![58u8, 32u8];
    let t5 = seq![32u8];
    let t6 = names_written(ins, 0);
    let rest = t6 + (section_written(seq![124u8], implicit) + (section_written(
        seq![124u8, 124u8],
        order_only,
    ) + (section_written(seq![124u8, 64u8], validations) + seq![10u8])));
    let p1 = l.ofs;
    let p2 = p1 + t1.len();
    let p3 = p2 + t2.len();
    let p4 = p3 + 2;
    let p5 = p4 + rule.len();
    let p6 = p5 + 1;
    assert(t1 + (t2 + (t3 + (rule + (t5 + rest)))) =~= (t1 + t2) + (t3 + (rule + (t5 + rest))));
    lemma_is_at(c, p1, t1 + t2, t3 + (rule + (t5 + rest)));
    lemma_is_at(c, p3, t3, rule + (t5 + rest));
    lemma_is_at(c, p4, rule, t5 + rest);
    lemma_is_at(c, p5, t5, rest);
    assert(c[p3 + 0] == t3[0] && c[p3 + 1] == t3[1]);
    assert(c[p5 + 0] == t5[0]);
    lemma_outs_read(l, outs, more_outs);
    let l2 = lexer_at(l, p3);
    // The colon and the rule.
    lemma_mark_read(c, p3);
    assert(is_word_byte(rule[0]));
    assert(c[p4 + 0] == rule[0]);
    lemma_no_blank(c, p4);
    assert(behind_blanks(c, p3 + 1) == p4);
    let l3 = l2.after_token();
    assert(l3.ofs == p4);
    assert forall|k: int| 0 <= k < rule.len() implies name_byte()(#[trigger] rule[k]) by {
        assert(is_word_byte(rule[k]));
    }
    crate::lexer::lemma_scan_to(c, p4, rule, name_byte());
    let l4 = l3.after_ident();
    assert(behind_blanks(c, p6) == p6) by {
        lemma_is_at(
            c,
            p6,
            t6,
            section_written(seq![124u8], implicit) + (section_written(
                seq![124u8, 124u8],
                order_only,
            ) + (section_written(seq![124u8, 64u8], validations) + seq![10u8])),
        );
        if ins.len() > 0 {
            let w = parts_written(ins[0], 0);
            lemma_is_at(c, p6, w, seq![32u8] + names_written(ins, 1));
            lemma_name_start(c, p6, ins[0]);
        } else {
            assert(c[p6 + 0] == rest[0]);
            lemma_no_blank(c, p6);
        }
    }
    assert(l4.ofs == p6);
    lemma_ins_read(l4, ins, implicit, order_only, validations);
    // The end of the line.
    let end = p1 + header_written(
        outs,
        more_outs,
        rule,
        ins,
        implicit,
        order_only,
        validations,
    ).len();
    assert(c[end - 1] == 10);
    lemma_mark_read(c, end - 1);
}

} // verus!
