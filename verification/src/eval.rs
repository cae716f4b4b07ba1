//! Variable expansion: `$`-interpolated strings, rules and lexical scopes.
//!
//! The important subtlety is the lookup order used when expanding a rule's
//! bindings for a particular build edge:
//!
//! 1. a value bound on the edge itself,
//! 2. a value bound on the rule, expanded *in the edge's scope*,
//! 3. a value bound in the scope enclosing the edge.
//!
//! See [`Scopes::lookup_with_fallback`], which implements these steps for a
//! single variable.

use vstd::hash_map::StringHashMap;
use vstd::prelude::*;
use vstd::string::*;

use crate::text::{insert_ascending, str_eq};

verus! {

broadcast use vstd::hash_map::group_hash_map_axioms;

use crate::text::{ascending, texts};

/// One piece of a parsed `$`-interpolated string: literal text, or a variable
/// reference (the name, without `$`).
#[derive(Debug)]
pub enum Tok {
    Text(String),
    Var(String),
}

/// A [`Tok`] by what it says.
pub enum TokView {
    Text(Seq<char>),
    Var(Seq<char>),
}

impl View for Tok {
    type V = TokView;

    open spec fn view(&self) -> TokView {
        match self {
            Tok::Text(t) => TokView::Text(t@),
            Tok::Var(v) => TokView::Var(v@),
        }
    }
}

impl Tok {
    /// A copy of this piece.
    pub fn duplicate(&self) -> (r: Tok)
        ensures
            r@ == self@,
    {
        match self {
            Tok::Text(t) => Tok::Text(t.clone()),
            Tok::Var(v) => Tok::Var(v.clone()),
        }
    }
}

/// What more literal text makes of a string: it joins a literal at the end, and
/// no text at all does not start a string.
pub open spec fn with_text(toks: Seq<TokView>, t: Seq<char>) -> Seq<TokView> {
    if toks.len() == 0 && t.len() == 0 {
        toks
    } else if toks.len() > 0 && toks.last() is Text {
        toks.drop_last().push(TokView::Text(toks.last()->Text_0 + t))
    } else {
        toks.push(TokView::Text(t))
    }
}

/// What one more variable reference makes of a string.
pub open spec fn with_var(toks: Seq<TokView>, v: Seq<char>) -> Seq<TokView> {
    toks.push(TokView::Var(v))
}

/// The text of a string whose variables have the values that `f` gives.
pub open spec fn expansion(toks: Seq<TokView>, f: spec_fn(Seq<char>) -> Seq<char>) -> Seq<char>
    decreases toks.len(),
{
    if toks.len() == 0 {
        Seq::empty()
    } else {
        expansion(toks.drop_last(), f) + (match toks.last() {
            TokView::Text(t) => t,
            TokView::Var(v) => f(v),
        })
    }
}

/// A string in source form, with variables as `${name}`.
pub open spec fn source_form(toks: Seq<TokView>) -> Seq<char> {
    expansion(toks, |v: Seq<char>| seq!['$', '{'] + v + seq!['}'])
}

/// The debug form of a string: `[text][$var]`.
pub open spec fn debug_form(toks: Seq<TokView>) -> Seq<char>
    decreases toks.len(),
{
    if toks.len() == 0 {
        Seq::empty()
    } else {
        debug_form(toks.drop_last()) + seq!['['] + (match toks.last() {
            TokView::Text(t) => t,
            TokView::Var(v) => seq!['$'] + v,
        }) + seq![']']
    }
}

/// A scope for `$variable` lookups.
///
/// What a lookup returns, and what it changes, is a function of the scope's
/// model.
pub trait Env: Sized {
    /// What the values depend on.
    type Model;

    /// The model of this scope.
    spec fn model(&self) -> Self::Model;

    /// Whether this scope can be asked.
    spec fn ready(&self) -> bool;

    /// The value of a variable, and the model after it has been looked up.
    spec fn value(m: Self::Model, var: Seq<char>) -> (Seq<char>, Self::Model);

    /// Look up `var`, returning the empty string when it is not bound.
    fn lookup(&mut self, var: &str) -> (r: String)
        requires
            old(self).ready(),
        ensures
            final(self).ready(),
            r@ == Self::value(old(self).model(), var@).0,
            final(self).model() == Self::value(old(self).model(), var@).1,
    ;
}

/// The text of a string whose variables are looked up one after the other,
/// and the model after all of them.
pub open spec fn evaluation<E: Env>(toks: Seq<TokView>, m: E::Model) -> (Seq<char>, E::Model)
    decreases toks.len(),
{
    if toks.len() == 0 {
        (Seq::empty(), m)
    } else {
        let front = evaluation::<E>(toks.drop_last(), m);
        match toks.last() {
            TokView::Text(t) => (front.0 + t, front.1),
            TokView::Var(v) => {
                let x = E::value(front.1, v);
                (front.0 + x.0, x.1)
            },
        }
    }
}

/// A tokenized string containing variable references, evaluated against an
/// [`Env`].
#[derive(Debug)]
pub struct EvalString {
    parsed: Vec<Tok>,
}

/// The pieces by what they say.
pub open spec fn tok_views(v: Seq<Tok>) -> Seq<TokView> {
    Seq::new(v.len(), |i: int| v[i]@)
}

impl View for EvalString {
    type V = Seq<TokView>;

    closed spec fn view(&self) -> Seq<TokView> {
        tok_views(self.parsed@)
    }
}

impl EvalString {
    /// An empty string with no tokens at all.
    pub fn new() -> (r: EvalString)
        ensures
            r@ == Seq::<TokView>::empty(),
    {
        let r = EvalString { parsed: Vec::new() };
        assert(r@ =~= Seq::<TokView>::empty());
        r
    }

    /// True when no tokens have been added. Note this is *not* "evaluates to
    /// the empty string": `$undefined` is not empty.
    pub fn is_empty(&self) -> (r: bool)
        ensures
            r == (self@.len() == 0),
    {
        self.parsed.len() == 0
    }

    /// Forget all tokens.
    pub fn clear(&mut self)
        ensures
            final(self)@ == Seq::<TokView>::empty(),
    {
        self.parsed = Vec::new();
        assert(self@ =~= Seq::<TokView>::empty());
    }

    /// A copy of this string.
    pub fn duplicate(&self) -> (r: EvalString)
        ensures
            r@ == self@,
    {
        let mut parsed: Vec<Tok> = Vec::new();
        let mut i: usize = 0;
        while i < self.parsed.len()
            invariant
                i <= self.parsed.len(),
                parsed.len() == i,
                forall|k: int| 0 <= k < i ==> (#[trigger] parsed@[k])@ == self.parsed@[k]@,
            decreases self.parsed.len() - i,
        {
            parsed.push(self.parsed[i].duplicate());
            i += 1;
        }
        let r = EvalString { parsed };
        assert(r@ =~= self@);
        r
    }

    /// Append literal text, coalescing with a preceding literal.
    pub fn add_text(&mut self, text: &str)
        ensures
            final(self)@ == with_text(old(self)@, text@),
    {
        let n: usize = self.parsed.len();
        if n == 0 {
            if !text.is_empty() {
                self.parsed.push(Tok::Text(text.to_owned()));
            }
            assert(self@ =~= with_text(old(self)@, text@));
            return;
        }
        let ghost before = self.parsed@;
        let last = self.parsed.pop();
        match last {
            Some(Tok::Text(mut t)) => {
                assert(old(self)@.last() == TokView::Text(t@));
                t.append(text);
                self.parsed.push(Tok::Text(t));
                assert(self@ =~= with_text(old(self)@, text@));
            },
            Some(Tok::Var(v)) => {
                assert(old(self)@.last() == TokView::Var(v@));
                self.parsed.push(Tok::Var(v));
                self.parsed.push(Tok::Text(text.to_owned()));
                assert(self@ =~= with_text(old(self)@, text@));
            },
            None => {},
        }
    }

    /// Append a variable reference.
    pub fn add_var(&mut self, name: &str)
        ensures
            final(self)@ == with_var(old(self)@, name@),
    {
        self.parsed.push(Tok::Var(name.to_owned()));
        assert(self@ =~= with_var(old(self)@, name@));
    }

    /// The number of tokens.
    pub fn len(&self) -> (r: usize)
        ensures
            r == self@.len(),
    {
        self.parsed.len()
    }

    /// The token at position `i`.
    pub fn token(&self, i: usize) -> (r: &Tok)
        requires
            i < self@.len(),
        ensures
            r@ == self@[i as int],
    {
        &self.parsed[i]
    }

    /// Expand all variables using `env`.
    pub fn evaluate<E: Env>(&self, env: &mut E) -> (r: String)
        requires
            old(env).ready(),
        ensures
            final(env).ready(),
            r@ == evaluation::<E>(self@, old(env).model()).0,
            final(env).model() == evaluation::<E>(self@, old(env).model()).1,
    {
        let mut out = String::new();
        let mut i: usize = 0;
        let ghost m = env.model();
        assert(self@.take(0) =~= Seq::<TokView>::empty());
        while i < self.parsed.len()
            invariant
                i <= self.parsed.len(),
                m == old(env).model(),
                env.ready(),
                out@ == evaluation::<E>(self@.take(i as int), m).0,
                env.model() == evaluation::<E>(self@.take(i as int), m).1,
            decreases self.parsed.len() - i,
        {
            assert(self@.take(i + 1).drop_last() =~= self@.take(i as int));
            assert(self@.take(i + 1).last() == self.parsed@[i as int]@);
            match &self.parsed[i] {
                Tok::Text(t) => {
                    out.append(t.as_str());
                },
                Tok::Var(v) => {
                    let x = env.lookup(v.as_str());
                    out.append(x.as_str());
                },
            }
            i += 1;
        }
        assert(self@.take(self.parsed.len() as int) =~= self@);
        out
    }

    /// Render back to source form, with variables as `${name}`.
    pub fn unparse(&self) -> (r: String)
        ensures
            r@ == source_form(self@),
    {
        let mut out = String::new();
        let mut i: usize = 0;
        let ghost f = |v: Seq<char>| seq!['$', '{'] + v + seq!['}'];
        assert(self@.take(0) =~= Seq::<TokView>::empty());
        while i < self.parsed.len()
            invariant
                i <= self.parsed.len(),
                f == (|v: Seq<char>| seq!['$', '{'] + v + seq!['}']),
                out@ == expansion(self@.take(i as int), f),
            decreases self.parsed.len() - i,
        {
            let ghost before = out@;
            assert(self@.take(i + 1).drop_last() =~= self@.take(i as int));
            assert(self@.take(i + 1).last() == self.parsed@[i as int]@);
            match &self.parsed[i] {
                Tok::Text(t) => {
                    out.append(t.as_str());
                },
                Tok::Var(v) => {
                    out.push('$');
                    out.push('{');
                    out.append(v.as_str());
                    out.push('}');
                    assert(out@ =~= before + f(v@));
                },
            }
            i += 1;
        }
        assert(self@.take(self.parsed.len() as int) =~= self@);
        out
    }

    /// Debug representation used by tests: `[text][$var]`.
    pub fn serialize(&self) -> (r: String)
        ensures
            r@ == debug_form(self@),
    {
        let mut out = String::new();
        let mut i: usize = 0;
        assert(self@.take(0) =~= Seq::<TokView>::empty());
        while i < self.parsed.len()
            invariant
                i <= self.parsed.len(),
                out@ == debug_form(self@.take(i as int)),
            decreases self.parsed.len() - i,
        {
            assert(self@.take(i + 1).drop_last() =~= self@.take(i as int));
            assert(self@.take(i + 1).last() == self.parsed@[i as int]@);
            out.push('[');
            match &self.parsed[i] {
                Tok::Text(t) => {
                    out.append(t.as_str());
                },
                Tok::Var(v) => {
                    out.push('$');
                    out.append(v.as_str());
                },
            }
            out.push(']');
            assert(out@ =~= debug_form(self@.take(i + 1)));
            i += 1;
        }
        assert(self@.take(self.parsed.len() as int) =~= self@);
        out
    }
}

/// Text added in two steps is text added in one.
pub proof fn law_text_coalesces(toks: Seq<TokView>, a: Seq<char>, b: Seq<char>)
    ensures
        with_text(with_text(toks, a), b) == with_text(toks, a + b),
{
    let w = with_text(toks, a);
    if toks.len() == 0 && a.len() == 0 {
        assert(a + b =~= b);
    } else if toks.len() > 0 && toks.last() is Text {
        let t = toks.last()->Text_0;
        assert(w.last() == TokView::Text(t + a));
        assert((t + a) + b =~= t + (a + b));
        assert(with_text(w, b) =~= with_text(toks, a + b));
    } else {
        assert(with_text(w, b) =~= with_text(toks, a + b));
    }
}

/// Adding text to a string adds that text to whatever the string expands to.
pub proof fn law_text_expands_to_itself(
    toks: Seq<TokView>,
    t: Seq<char>,
    f: spec_fn(Seq<char>) -> Seq<char>,
)
    ensures
        expansion(with_text(toks, t), f) == expansion(toks, f) + t,
{
    let w = with_text(toks, t);
    if toks.len() == 0 && t.len() == 0 {
        assert(expansion(toks, f) + t =~= expansion(toks, f));
    } else if toks.len() > 0 && toks.last() is Text {
        assert(w.drop_last() =~= toks.drop_last());
        assert(expansion(w, f) =~= expansion(toks, f) + t);
    } else {
        assert(w.drop_last() =~= toks);
    }
}

/// Identifier for a rule in [`Scopes`].
#[derive(Copy, Clone, PartialEq, Eq, Structural, PartialOrd, Ord, Hash, Debug)]
pub struct RuleId(pub usize);

/// Identifier for a lexical scope in [`Scopes`].
#[derive(Copy, Clone, PartialEq, Eq, Structural, PartialOrd, Ord, Hash, Debug)]
pub struct ScopeId(pub usize);

/// The built-in `phony` rule always has id 0.
#[verifier::allow_in_spec]
pub fn phony_rule() -> RuleId
    returns
        RuleId(0),
{
    RuleId(0)
}

/// The root (global) scope always has id 0.
#[verifier::allow_in_spec]
pub fn root_scope() -> ScopeId
    returns
        ScopeId(0),
{
    ScopeId(0)
}

/// The bindings of a rule, in declaration order.
pub type BindingsView = Seq<(Seq<char>, Seq<TokView>)>;

/// The first binding from the `k`-th on that binds `key`, or the number of
/// bindings when none does.
pub open spec fn key_index(b: BindingsView, key: Seq<char>, k: int) -> int
    decreases b.len() - k,
{
    if 0 <= k < b.len() && b[k].0 != key {
        key_index(b, key, k + 1)
    } else {
        k
    }
}

/// The unexpanded value bound to `key`, if any.
pub open spec fn bound_value(b: BindingsView, key: Seq<char>) -> Option<Seq<TokView>> {
    let k = key_index(b, key, 0);
    if k < b.len() {
        Some(b[k].1)
    } else {
        None
    }
}

/// The bindings after `key` has been bound to `val`: in place of an earlier
/// binding of the same key, or else at the end.
pub open spec fn with_binding(b: BindingsView, key: Seq<char>, val: Seq<TokView>) -> BindingsView {
    let k = key_index(b, key, 0);
    if k < b.len() {
        b.update(k, (key, val))
    } else {
        b.push((key, val))
    }
}

/// Whether no key is bound twice.
pub open spec fn keys_distinct(b: BindingsView) -> bool {
    forall|i: int, j: int| 0 <= i < j < b.len() ==> (#[trigger] b[i]).0 != (#[trigger] b[j]).0
}

proof fn lemma_key_index(b: BindingsView, key: Seq<char>, k: int)
    requires
        0 <= k <= b.len(),
    ensures
        k <= key_index(b, key, k) <= b.len(),
        key_index(b, key, k) < b.len() ==> b[key_index(b, key, k)].0 == key,
        forall|i: int| k <= i < key_index(b, key, k) ==> (#[trigger] b[i]).0 != key,
    decreases b.len() - k,
{
    if k < b.len() && b[k].0 != key {
        lemma_key_index(b, key, k + 1);
    }
}

/// Binding a key keeps the keys distinct.
pub proof fn law_binding_keeps_keys_distinct(b: BindingsView, key: Seq<char>, val: Seq<TokView>)
    requires
        keys_distinct(b),
    ensures
        keys_distinct(with_binding(b, key, val)),
{
    lemma_key_index(b, key, 0);
}

/// A key has the value it was last bound to, and no other key changes.
pub proof fn law_last_binding_wins(
    b: BindingsView,
    key: Seq<char>,
    val: Seq<TokView>,
    other: Seq<char>,
)
    ensures
        bound_value(with_binding(b, key, val), other) == if other == key {
            Some(val)
        } else {
            bound_value(b, other)
        },
{
    let w = with_binding(b, key, val);
    lemma_key_index(b, key, 0);
    lemma_key_index(b, other, 0);
    lemma_key_index(w, other, 0);
    let i = key_index(w, other, 0);
    let j = key_index(b, other, 0);
    let k = key_index(b, key, 0);
    if other == key {
        if i < k {
            assert(w[i] == b[i]);
        }
        if i > k {
            assert(w[k].0 == key);
        }
    } else {
        if i < j {
            if i < b.len() {
                assert(w[i].0 == b[i].0);
            }
        } else if j < i && j < b.len() {
            assert(w[j].0 == b[j].0);
        }
    }
}

/// A rule by what it declares.
pub struct RuleView {
    pub name: Seq<char>,
    pub bindings: BindingsView,
    pub phony: bool,
}

/// An invocable build command plus its metadata (description, depfile, ...).
#[derive(Debug)]
pub struct Rule {
    name: String,
    bindings: Vec<(String, EvalString)>,
    phony: bool,
}

/// The bindings by what they say.
pub open spec fn binding_views(v: Seq<(String, EvalString)>) -> BindingsView {
    Seq::new(v.len(), |i: int| (v[i].0@, v[i].1@))
}

impl View for Rule {
    type V = RuleView;

    closed spec fn view(&self) -> RuleView {
        RuleView { name: self.name@, bindings: binding_views(self.bindings@), phony: self.phony }
    }
}

/// The names that a `rule` block may bind.
pub open spec fn is_reserved(var: Seq<char>) -> bool {
    ||| var == "command"@
    ||| var == "depfile"@
    ||| var == "dyndep"@
    ||| var == "description"@
    ||| var == "deps"@
    ||| var == "generator"@
    ||| var == "pool"@
    ||| var == "restat"@
    ||| var == "rspfile"@
    ||| var == "rspfile_content"@
    ||| var == "msvc_deps_prefix"@
}

impl Rule {
    /// A new rule with no bindings.
    pub fn new(name: String) -> (r: Rule)
        ensures
            r@ == (RuleView { name: name@, bindings: Seq::empty(), phony: false }),
    {
        let r = Rule { name, bindings: Vec::new(), phony: false };
        assert(r@.bindings =~= Seq::empty());
        r
    }

    /// The built-in `phony` rule.
    pub fn phony() -> (r: Rule)
        ensures
            r@ == (RuleView { name: "phony"@, bindings: Seq::empty(), phony: true }),
    {
        let r = Rule { name: "phony".to_owned(), bindings: Vec::new(), phony: true };
        assert(r@.bindings =~= Seq::empty());
        r
    }

    /// The rule's name as written in the manifest.
    pub fn name(&self) -> (r: &str)
        ensures
            r@ == self@.name,
    {
        self.name.as_str()
    }

    /// True for the built-in `phony` rule.
    pub fn is_phony(&self) -> (r: bool)
        ensures
            r == self@.phony,
    {
        self.phony
    }

    fn find(&self, key: &str) -> (k: usize)
        ensures
            k == key_index(self@.bindings, key@, 0),
            k <= self.bindings.len(),
    {
        let mut k: usize = 0;
        while k < self.bindings.len() && !str_eq(self.bindings[k].0.as_str(), key)
            invariant
                k <= self.bindings.len(),
                key_index(self@.bindings, key@, k as int) == key_index(self@.bindings, key@, 0),
            decreases self.bindings.len() - k,
        {
            k += 1;
        }
        k
    }

    /// Bind `key` to `val`, replacing any previous binding.
    pub fn add_binding(&mut self, key: String, val: EvalString)
        ensures
            final(self)@ == (RuleView {
                bindings: with_binding(old(self)@.bindings, key@, val@),
                ..old(self)@
            }),
    {
        let k: usize = self.find(key.as_str());
        if k < self.bindings.len() {
            self.bindings.set(k, (key, val));
        } else {
            self.bindings.push((key, val));
        }
        assert(self@.bindings =~= with_binding(old(self)@.bindings, key@, val@));
    }

    /// The unexpanded value bound to `key`, if any.
    pub fn binding(&self, key: &str) -> (r: Option<&EvalString>)
        ensures
            match r {
                Some(e) => bound_value(self@.bindings, key@) == Some(e@),
                None => bound_value(self@.bindings, key@) is None,
            },
    {
        let k: usize = self.find(key);
        if k < self.bindings.len() {
            Some(&self.bindings[k].1)
        } else {
            None
        }
    }

    /// All bindings, in declaration order.
    pub fn bindings(&self) -> (r: &[(String, EvalString)])
        ensures
            binding_views(r@) == self@.bindings,
    {
        self.bindings.as_slice()
    }

    /// True if `var` is one of the variable names a `rule` block may bind.
    pub fn is_reserved_binding(var: &str) -> (r: bool)
        ensures
            r == is_reserved(var@),
    {
        str_eq(var, "command") || str_eq(var, "depfile") || str_eq(var, "dyndep") || str_eq(
            var,
            "description",
        ) || str_eq(var, "deps") || str_eq(var, "generator") || str_eq(var, "pool") || str_eq(
            var,
            "restat",
        ) || str_eq(var, "rspfile") || str_eq(var, "rspfile_content") || str_eq(
            var,
            "msvc_deps_prefix",
        )
    }
}

/// A lexical scope by what it declares.
pub struct ScopeView {
    pub bindings: Map<Seq<char>, Seq<char>>,
    pub rules: Map<Seq<char>, RuleId>,
    pub parent: Option<ScopeId>,
}

/// The arena of scopes and rules by what they declare.
pub struct ScopesView {
    pub scopes: Seq<ScopeView>,
    pub rules: Seq<RuleView>,
}

impl ScopesView {
    /// Every scope has its parent before it, every rule name stands for a rule,
    /// and the first rule is the built-in one.
    pub open spec fn wf(self) -> bool {
        &&& self.scopes.len() > 0
        &&& self.rules.len() > 0
        &&& self.rules[0].phony
        &&& forall|i: int| 0 <= i < self.scopes.len() ==> {
            &&& (#[trigger] self.scopes[i]).parent matches Some(p) ==> p.0 < i
            &&& forall|n: Seq<char>| #[trigger]
                self.scopes[i].rules.contains_key(n) ==> self.scopes[i].rules[n].0
                    < self.rules.len()
        }
    }

    /// The value of `var` in `scope`, or in the nearest enclosing scope that
    /// binds it.
    pub open spec fn lookup(self, scope: int, var: Seq<char>) -> Option<Seq<char>>
        decreases scope,
    {
        if 0 <= scope < self.scopes.len() {
            let s = self.scopes[scope];
            if s.bindings.contains_key(var) {
                Some(s.bindings[var])
            } else {
                match s.parent {
                    Some(p) => if p.0 < scope {
                        self.lookup(p.0 as int, var)
                    } else {
                        None
                    },
                    None => None,
                }
            }
        } else {
            None
        }
    }

    /// The value of `var` in `scope`, empty when it is not bound.
    pub open spec fn value(self, scope: int, var: Seq<char>) -> Seq<char> {
        match self.lookup(scope, var) {
            Some(v) => v,
            None => Seq::empty(),
        }
    }

    /// The rule called `name` in `scope`, or in the nearest enclosing scope
    /// that declares it.
    pub open spec fn find_rule(self, scope: int, name: Seq<char>) -> Option<RuleId>
        decreases scope,
    {
        if 0 <= scope < self.scopes.len() {
            let s = self.scopes[scope];
            if s.rules.contains_key(name) {
                Some(s.rules[name])
            } else {
                match s.parent {
                    Some(p) => if p.0 < scope {
                        self.find_rule(p.0 as int, name)
                    } else {
                        None
                    },
                    None => None,
                }
            }
        } else {
            None
        }
    }

    /// The text of a string whose variables have their values in `scope`.
    pub open spec fn expand(self, scope: int, toks: Seq<TokView>) -> Seq<char> {
        expansion(toks, |v: Seq<char>| self.value(scope, v))
    }

    /// The arena with a child scope of `parent` added.
    pub open spec fn with_child(self, parent: ScopeId) -> ScopesView {
        ScopesView {
            scopes: self.scopes.push(
                ScopeView { bindings: Map::empty(), rules: Map::empty(), parent: Some(parent) },
            ),
            ..self
        }
    }

    /// The arena with `key` bound to `val` in `scope`.
    pub open spec fn with_value(self, scope: int, key: Seq<char>, val: Seq<char>) -> ScopesView {
        let s = self.scopes[scope];
        ScopesView {
            scopes: self.scopes.update(
                scope,
                ScopeView { bindings: s.bindings.insert(key, val), ..s },
            ),
            ..self
        }
    }

    /// The arena with `rule` declared in `scope`.
    pub open spec fn with_rule(self, scope: int, rule: RuleView) -> ScopesView {
        let s = self.scopes[scope];
        ScopesView {
            scopes: self.scopes.update(
                scope,
                ScopeView {
                    rules: s.rules.insert(rule.name, RuleId(self.rules.len() as usize)),
                    ..s
                },
            ),
            rules: self.rules.push(rule),
        }
    }
}

/// The arena that holds the root scope and the built-in rule.
pub open spec fn initial_scopes() -> ScopesView {
    ScopesView {
        scopes: seq![
            ScopeView {
                bindings: Map::empty(),
                rules: Map::empty().insert("phony"@, phony_rule()),
                parent: None,
            },
        ],
        rules: seq![RuleView { name: "phony"@, bindings: Seq::empty(), phony: true }],
    }
}

/// A single lexical scope: variable bindings, rules, and a parent link.
struct Scope {
    bindings: StringHashMap<String>,
    rules: StringHashMap<RuleId>,
    /// The names of the rules, in ascending order.
    names: Vec<String>,
    parent: Option<ScopeId>,
}

impl View for Scope {
    type V = ScopeView;

    closed spec fn view(&self) -> ScopeView {
        ScopeView {
            bindings: self.bindings@.map_values(|s: String| s@),
            rules: self.rules@,
            parent: self.parent,
        }
    }
}

impl Scope {
    closed spec fn names_ok(&self) -> bool {
        &&& ascending(texts(self.names@))
        &&& forall|n: Seq<char>| #[trigger]
            texts(self.names@).contains(n) <==> self.rules@.contains_key(n)
    }
}

/// Arena of lexical scopes and rules.
///
/// `subninja` creates a child scope; `include` reuses the current one.
pub struct Scopes {
    scopes: Vec<Scope>,
    rules: Vec<Rule>,
}

impl View for Scopes {
    type V = ScopesView;

    closed spec fn view(&self) -> ScopesView {
        ScopesView {
            scopes: Seq::new(self.scopes@.len(), |i: int| self.scopes@[i]@),
            rules: Seq::new(self.rules@.len(), |i: int| self.rules@[i]@),
        }
    }
}

impl Scopes {
    /// The invariant of the arena.
    pub closed spec fn wf(&self) -> bool {
        &&& self@.wf()
        &&& forall|i: int| 0 <= i < self.scopes@.len() ==> (#[trigger] self.scopes@[i]).names_ok()
    }

    /// A well-formed arena has a well-formed model.
    pub proof fn lemma_wf(&self)
        requires
            self.wf(),
        ensures
            self@.wf(),
    {
    }

    /// A fresh arena containing the root scope and the built-in `phony` rule.
    pub fn new() -> (r: Scopes)
        ensures
            r.wf(),
            r@ == initial_scopes(),
    {
        let mut root = Scope {
            bindings: StringHashMap::new(),
            rules: StringHashMap::new(),
            names: Vec::new(),
            parent: None,
        };
        root.rules.insert("phony".to_owned(), phony_rule());
        root.names.push("phony".to_owned());
        proof {
            assert(texts(root.names@) =~= seq!["phony"@]);
            assert(texts(root.names@)[0] == "phony"@);
        }
        let mut scopes: Vec<Scope> = Vec::new();
        scopes.push(root);
        let mut rules: Vec<Rule> = Vec::new();
        rules.push(Rule::phony());
        let r = Scopes { scopes, rules };
        proof {
            let s = r@.scopes[0];
            assert(s.bindings =~= Map::empty());
            assert(s.rules =~= Map::empty().insert("phony"@, phony_rule()));
            assert(r@.scopes =~= initial_scopes().scopes);
            assert(r@.rules =~= initial_scopes().rules);
        }
        r
    }

    /// Create a child scope of `parent`.
    pub fn new_child(&mut self, parent: ScopeId) -> (r: ScopeId)
        requires
            old(self).wf(),
            parent.0 < old(self)@.scopes.len(),
        ensures
            final(self).wf(),
            final(self)@ == old(self)@.with_child(parent),
            r.0 == old(self)@.scopes.len(),
    {
        let id: usize = self.scopes.len();
        let child = Scope {
            bindings: StringHashMap::new(),
            rules: StringHashMap::new(),
            names: Vec::new(),
            parent: Some(parent),
        };
        let ghost c = child;
        self.scopes.push(child);
        proof {
            assert(texts(c.names@) =~= Seq::empty());
            assert(c.names_ok());
            assert(c@.bindings =~= Map::empty());
            assert(self@.scopes =~= old(self)@.with_child(parent).scopes);
            assert(self@.rules =~= old(self)@.rules);
            assert forall|i: int| 0 <= i < self@.scopes.len() implies {
                &&& (#[trigger] self@.scopes[i]).parent matches Some(p) ==> p.0 < i
                &&& forall|n: Seq<char>| #[trigger]
                    self@.scopes[i].rules.contains_key(n) ==> self@.scopes[i].rules[n].0
                        < self@.rules.len()
            } by {
                if i < id {
                    assert(self@.scopes[i] == old(self)@.scopes[i]);
                }
            }
            assert forall|i: int| 0 <= i < self.scopes@.len() implies (
            #[trigger] self.scopes@[i]).names_ok() by {
                if i < id {
                    assert(self.scopes@[i] == old(self).scopes@[i]);
                }
            }
        }
        ScopeId(id)
    }

    /// Bind `key` to the already-expanded `val` in `scope`.
    pub fn add_binding(&mut self, scope: ScopeId, key: String, val: String)
        requires
            old(self).wf(),
            scope.0 < old(self)@.scopes.len(),
        ensures
            final(self).wf(),
            final(self)@ == old(self)@.with_value(scope.0 as int, key@, val@),
    {
        let ghost k = key@;
        let ghost v = val@;
        let ghost before = self.scopes@[scope.0 as int];
        let slot = &mut self.scopes[scope.0];
        slot.bindings.insert(key, val);
        proof {
            let after = self.scopes@[scope.0 as int];
            assert(after@.bindings =~= before@.bindings.insert(k, v));
            assert(before.names_ok());
            assert(after.names_ok());
            assert(self@.scopes =~= old(self)@.with_value(scope.0 as int, k, v).scopes);
            assert(self@.rules =~= old(self)@.rules);
            assert forall|i: int| 0 <= i < self@.scopes.len() implies {
                &&& (#[trigger] self@.scopes[i]).parent matches Some(p) ==> p.0 < i
                &&& forall|n: Seq<char>| #[trigger]
                    self@.scopes[i].rules.contains_key(n) ==> self@.scopes[i].rules[n].0
                        < self@.rules.len()
            } by {
                assert(old(self)@.scopes[i].parent == self@.scopes[i].parent);
            }
            assert forall|i: int| 0 <= i < self.scopes@.len() implies (
            #[trigger] self.scopes@[i]).names_ok() by {
                if i != scope.0 {
                    assert(self.scopes@[i] == old(self).scopes@[i]);
                }
            }
        }
    }

    /// Look up `var` in `scope`, walking up to the root scope.
    pub fn lookup_variable(&self, scope: ScopeId, var: &str) -> (r: String)
        requires
            self.wf(),
            scope.0 < self@.scopes.len(),
        ensures
            r@ == self@.value(scope.0 as int, var@),
    {
        let mut s: usize = scope.0;
        loop
            invariant
                self.wf(),
                s < self@.scopes.len(),
                self@.lookup(s as int, var@) == self@.lookup(scope.0 as int, var@),
            decreases s,
        {
            let sc = &self.scopes[s];
            assert(sc@ == self@.scopes[s as int]);
            match sc.bindings.get(var) {
                Some(v) => {
                    return v.clone();
                },
                None => {},
            }
            match sc.parent {
                Some(p) => {
                    s = p.0;
                },
                None => {
                    return String::new();
                },
            }
        }
    }

    /// The bindings declared directly in `scope`.
    pub fn bindings_in(&self, scope: ScopeId) -> (r: &StringHashMap<String>)
        requires
            scope.0 < self@.scopes.len(),
        ensures
            r@.map_values(|s: String| s@) == self@.scopes[scope.0 as int].bindings,
    {
        &self.scopes[scope.0].bindings
    }

    /// Register `rule` in `scope`, returning its id.
    pub fn add_rule(&mut self, scope: ScopeId, rule: Rule) -> (r: RuleId)
        requires
            old(self).wf(),
            scope.0 < old(self)@.scopes.len(),
        ensures
            final(self).wf(),
            final(self)@ == old(self)@.with_rule(scope.0 as int, rule@),
            r.0 == old(self)@.rules.len(),
    {
        let id = RuleId(self.rules.len());
        let name = rule.name().to_owned();
        let copy = name.clone();
        let ghost n = name@;
        let ghost rv = rule@;
        self.rules.push(rule);
        let ghost before = self.scopes@[scope.0 as int];
        assert(before.names_ok());
        let slot = &mut self.scopes[scope.0];
        slot.rules.insert(name, id);
        insert_ascending(&mut slot.names, copy);
        proof {
            let after = self.scopes@[scope.0 as int];
            assert(after@.bindings =~= before@.bindings);
            assert(after@.rules =~= before@.rules.insert(n, id));
            assert(after.names_ok()) by {
                assert forall|m: Seq<char>| #[trigger]
                    texts(after.names@).contains(m) <==> after.rules@.contains_key(m) by {
                    assert(texts(before.names@).contains(m) <==> before.rules@.contains_key(m));
                }
            }
            assert(self@.scopes =~= old(self)@.with_rule(scope.0 as int, rv).scopes);
            assert(self@.rules =~= old(self)@.rules.push(rv));
            assert forall|i: int| 0 <= i < self@.scopes.len() implies {
                &&& (#[trigger] self@.scopes[i]).parent matches Some(p) ==> p.0 < i
                &&& forall|n: Seq<char>| #[trigger]
                    self@.scopes[i].rules.contains_key(n) ==> self@.scopes[i].rules[n].0
                        < self@.rules.len()
            } by {
                assert(old(self)@.scopes[i].parent == self@.scopes[i].parent);
                assert forall|m: Seq<char>| #[trigger]
                    self@.scopes[i].rules.contains_key(m) implies self@.scopes[i].rules[m].0
                    < self@.rules.len() by {
                    if i != scope.0 || m != n {
                        assert(old(self)@.scopes[i].rules.contains_key(m));
                    }
                }
            }
            assert forall|i: int| 0 <= i < self.scopes@.len() implies (
            #[trigger] self.scopes@[i]).names_ok() by {
                if i != scope.0 {
                    assert(self.scopes@[i] == old(self).scopes@[i]);
                }
            }
            assert(self@.rules[0] == old(self)@.rules[0]);
        }
        id
    }

    /// Find a rule by name in `scope` or any ancestor.
    pub fn lookup_rule(&self, scope: ScopeId, name: &str) -> (r: Option<RuleId>)
        requires
            self.wf(),
            scope.0 < self@.scopes.len(),
        ensures
            r == self@.find_rule(scope.0 as int, name@),
            r matches Some(id) ==> id.0 < self@.rules.len(),
    {
        let mut s: usize = scope.0;
        loop
            invariant
                self.wf(),
                s < self@.scopes.len(),
                self@.find_rule(s as int, name@) == self@.find_rule(scope.0 as int, name@),
            decreases s,
        {
            let sc = &self.scopes[s];
            assert(sc@ == self@.scopes[s as int]);
            match sc.rules.get(name) {
                Some(id) => {
                    assert(self@.scopes[s as int].rules.contains_key(name@));
                    return Some(*id);
                },
                None => {},
            }
            match sc.parent {
                Some(p) => {
                    s = p.0;
                },
                None => {
                    return None;
                },
            }
        }
    }

    /// Find a rule declared directly in `scope`.
    pub fn lookup_rule_current_scope(&self, scope: ScopeId, name: &str) -> (r: Option<RuleId>)
        requires
            scope.0 < self@.scopes.len(),
        ensures
            r == (if self@.scopes[scope.0 as int].rules.contains_key(name@) {
                Some(self@.scopes[scope.0 as int].rules[name@])
            } else {
                None
            }),
    {
        let sc = &self.scopes[scope.0];
        assert(sc@ == self@.scopes[scope.0 as int]);
        match sc.rules.get(name) {
            Some(id) => Some(*id),
            None => None,
        }
    }

    /// The rule with the given id.
    pub fn rule(&self, id: RuleId) -> (r: &Rule)
        requires
            id.0 < self@.rules.len(),
        ensures
            r@ == self@.rules[id.0 as int],
    {
        &self.rules[id.0]
    }

    /// All rules declared directly in `scope`, sorted by name.
    pub fn rules_in(&self, scope: ScopeId) -> (r: Vec<(String, RuleId)>)
        requires
            self.wf(),
            scope.0 < self@.scopes.len(),
        ensures
            forall|i: int, j: int|
                0 <= i < j < r.len() ==> crate::text::text_less(
                    (#[trigger] r@[i]).0@,
                    (#[trigger] r@[j]).0@,
                ),
            forall|i: int|
                0 <= i < r.len() ==> self@.scopes[scope.0 as int].rules.contains_key(
                    (#[trigger] r@[i]).0@,
                ) && self@.scopes[scope.0 as int].rules[r@[i].0@] == r@[i].1,
            forall|n: Seq<char>| #[trigger]
                self@.scopes[scope.0 as int].rules.contains_key(n) ==> exists|i: int|
                    0 <= i < r.len() && (#[trigger] r@[i]).0@ == n,
    {
        let sc = &self.scopes[scope.0];
        assert(sc@ == self@.scopes[scope.0 as int]);
        assert(sc.names_ok());
        let mut out: Vec<(String, RuleId)> = Vec::new();
        let mut i: usize = 0;
        while i < sc.names.len()
            invariant
                i <= sc.names.len(),
                sc.names_ok(),
                out.len() == i,
                forall|k: int|
                    0 <= k < i ==> (#[trigger] out@[k]).0@ == sc.names@[k]@
                        && sc.rules@.contains_key(out@[k].0@) && sc.rules@[out@[k].0@] == out@[k].1,
            decreases sc.names.len() - i,
        {
            let n = &sc.names[i];
            assert(texts(sc.names@)[i as int] == n@);
            assert(texts(sc.names@).contains(n@));
            match sc.rules.get(n.as_str()) {
                Some(id) => {
                    out.push((n.clone(), *id));
                },
                None => {
                    assert(false);
                },
            }
            i += 1;
        }
        proof {
            let t = texts(sc.names@);
            assert forall|a: int, b: int| 0 <= a < b < out.len() implies crate::text::text_less(
                (#[trigger] out@[a]).0@,
                (#[trigger] out@[b]).0@,
            ) by {
                assert(t[a] == out@[a].0@ && t[b] == out@[b].0@);
            }
            assert forall|n: Seq<char>| #[trigger] sc.rules@.contains_key(n) implies exists|k: int|
                0 <= k < out.len() && (#[trigger] out@[k]).0@ == n by {
                assert(t.contains(n));
                let k = choose|k: int| 0 <= k < t.len() && t[k] == n;
                assert(out@[k].0@ == n);
            }
        }
        out
    }

    /// All rules in the arena.
    pub fn all_rules(&self) -> (r: &[Rule])
        ensures
            r@.len() == self@.rules.len(),
            forall|i: int| 0 <= i < r@.len() ==> (#[trigger] r@[i])@ == self@.rules[i],
    {
        self.rules.as_slice()
    }

    /// The number of scopes in the arena.
    pub fn scope_count(&self) -> (r: usize)
        ensures
            r == self@.scopes.len(),
    {
        self.scopes.len()
    }

    /// The binding of `var` in `scope` itself.
    pub fn own_binding(&self, scope: ScopeId, var: &str) -> (r: Option<String>)
        requires
            scope.0 < self@.scopes.len(),
        ensures
            match r {
                Some(v) => self@.scopes[scope.0 as int].bindings.contains_key(var@)
                    && self@.scopes[scope.0 as int].bindings[var@] == v@,
                None => !self@.scopes[scope.0 as int].bindings.contains_key(var@),
            },
    {
        let sc = &self.scopes[scope.0];
        assert(sc@ == self@.scopes[scope.0 as int]);
        match sc.bindings.get(var) {
            Some(v) => Some(v.clone()),
            None => None,
        }
    }

    /// The scope enclosing `scope`.
    pub fn parent(&self, scope: ScopeId) -> (r: Option<ScopeId>)
        requires
            self.wf(),
            scope.0 < self@.scopes.len(),
        ensures
            r == self@.scopes[scope.0 as int].parent,
            r matches Some(p) ==> p.0 < scope.0,
    {
        let sc = &self.scopes[scope.0];
        assert(sc@ == self@.scopes[scope.0 as int]);
        sc.parent
    }

    /// Edge-aware variable lookup.
    ///
    /// Returns a binding from `scope` itself if present; otherwise expands
    /// `eval` (a rule binding) using `env`; otherwise continues the lookup in
    /// the parent scope.
    pub fn lookup_with_fallback<E: Env>(
        &self,
        scope: ScopeId,
        var: &str,
        eval: Option<&EvalString>,
        env: &mut E,
    ) -> (r: String)
        requires
            self.wf(),
            scope.0 < self@.scopes.len(),
            old(env).ready(),
        ensures
            final(env).ready(),
            ({
                let s = self@.scopes[scope.0 as int];
                if s.bindings.contains_key(var@) {
                    r@ == s.bindings[var@] && final(env).model() == old(env).model()
                } else {
                    match eval {
                        Some(e) => r@ == evaluation::<E>(e@, old(env).model()).0
                            && final(env).model() == evaluation::<E>(e@, old(env).model()).1,
                        None => r@ == (match s.parent {
                            Some(p) => self@.value(p.0 as int, var@),
                            None => Seq::empty(),
                        }) && final(env).model() == old(env).model(),
                    }
                }
            }),
    {
        match self.own_binding(scope, var) {
            Some(v) => {
                return v;
            },
            None => {},
        }
        match eval {
            Some(e) => e.evaluate(env),
            None => match self.parent(scope) {
                Some(p) => self.lookup_variable(p, var),
                None => String::new(),
            },
        }
    }

    /// The text of `eval` with its variables looked up in `scope`.
    pub fn expand(&self, scope: ScopeId, eval: &EvalString) -> (r: String)
        requires
            self.wf(),
            scope.0 < self@.scopes.len(),
        ensures
            r@ == self@.expand(scope.0 as int, eval@),
    {
        let mut env = ScopeEnv::new(self, scope);
        let r = eval.evaluate(&mut env);
        proof {
            lemma_scope_evaluation(self@, scope, eval@);
        }
        r
    }
}

/// An [`Env`] that resolves variables in a single scope chain. This is what
/// the manifest parser uses while parsing.
pub struct ScopeEnv<'a> {
    scopes: &'a Scopes,
    scope: ScopeId,
}

impl<'a> ScopeEnv<'a> {
    /// Create an env for `scope`.
    pub fn new(scopes: &'a Scopes, scope: ScopeId) -> (r: ScopeEnv<'a>)
        requires
            scopes.wf(),
            scope.0 < scopes@.scopes.len(),
        ensures
            r.ready(),
            r.model() == (scopes@, scope),
    {
        ScopeEnv { scopes, scope }
    }
}

impl<'a> Env for ScopeEnv<'a> {
    type Model = (ScopesView, ScopeId);

    closed spec fn model(&self) -> (ScopesView, ScopeId) {
        (self.scopes@, self.scope)
    }

    closed spec fn ready(&self) -> bool {
        self.scopes.wf() && self.scope.0 < self.scopes@.scopes.len()
    }

    open spec fn value(m: (ScopesView, ScopeId), var: Seq<char>) -> (
        Seq<char>,
        (ScopesView, ScopeId),
    ) {
        (m.0.value(m.1.0 as int, var), m)
    }

    fn lookup(&mut self, var: &str) -> (r: String) {
        self.scopes.lookup_variable(self.scope, var)
    }
}

/// Evaluating a string in a scope is replacing its variables by their values
/// there.
pub proof fn lemma_scope_evaluation<'a>(s: ScopesView, scope: ScopeId, toks: Seq<TokView>)
    ensures
        evaluation::<ScopeEnv<'a>>(toks, (s, scope)) == (
            s.expand(scope.0 as int, toks),
            (s, scope),
        ),
    decreases toks.len(),
{
    if toks.len() > 0 {
        lemma_scope_evaluation(s, scope, toks.drop_last());
    }
}

/// An [`Env`] backed by a plain map, useful for tests and for dyndep files
/// (which have no scopes of their own).
pub struct MapEnv {
    map: StringHashMap<String>,
}

impl MapEnv {
    /// An empty env.
    pub fn new() -> (r: MapEnv)
        ensures
            r.ready(),
            r.model() == Map::<Seq<char>, Seq<char>>::empty(),
    {
        let r = MapEnv { map: StringHashMap::new() };
        assert(r.model() =~= Map::<Seq<char>, Seq<char>>::empty());
        r
    }

    /// Bind a variable.
    pub fn insert(&mut self, k: String, v: String)
        ensures
            final(self).ready(),
            final(self).model() == old(self).model().insert(k@, v@),
    {
        self.map.insert(k, v);
        assert(self.model() =~= old(self).model().insert(k@, v@));
    }
}

impl Env for MapEnv {
    type Model = Map<Seq<char>, Seq<char>>;

    closed spec fn model(&self) -> Map<Seq<char>, Seq<char>> {
        self.map@.map_values(|s: String| s@)
    }

    open spec fn ready(&self) -> bool {
        true
    }

    open spec fn value(m: Map<Seq<char>, Seq<char>>, var: Seq<char>) -> (
        Seq<char>,
        Map<Seq<char>, Seq<char>>,
    ) {
        (
            if m.contains_key(var) {
                m[var]
            } else {
                Seq::empty()
            },
            m,
        )
    }

    fn lookup(&mut self, var: &str) -> (r: String) {
        match self.map.get(var) {
            Some(v) => v.clone(),
            None => String::new(),
        }
    }
}

} // verus!
