//! Path canonicalization.
//!
//! Canonicalization collapses `.`, `..` and duplicate separators without
//! touching the filesystem, so that two spellings of the same path in a
//! manifest map to the same graph node. The separator is `/`.

use vstd::prelude::*;
use vstd::string::*;

use crate::text::{chars_of, lemma_char_number, lemma_scan, string_of};

verus! {

broadcast use vstd::seq::group_seq_axioms;

use crate::text::{lemma_scan_is, scan, scan_back};

/// Accepts everything but the separator.
pub open spec fn not_sep() -> spec_fn(char) -> bool {
    |c: char| c != '/'
}

/// Accepts the separator alone.
pub open spec fn sep() -> spec_fn(char) -> bool {
    |c: char| c == '/'
}

/// The component that starts at `pos`: everything up to the next separator.
pub open spec fn component_at(s: Seq<char>, pos: int) -> Seq<char> {
    s.subrange(pos, scan(s, pos, not_sep()))
}

/// What one more path component makes of the components kept so far: empty
/// components and `.` disappear, `..` takes back the component before it
/// unless there is none left to take back.
pub open spec fn push_component(kept: Seq<Seq<char>>, c: Seq<char>) -> Seq<Seq<char>> {
    if c.len() == 0 || c == seq!['.'] {
        kept
    } else if c == seq!['.', '.'] && kept.len() > 0 && kept.last() != seq!['.', '.'] {
        kept.drop_last()
    } else {
        kept.push(c)
    }
}

/// The components that remain once everything from `pos` on has been added to
/// `kept`.
pub open spec fn components_from(kept: Seq<Seq<char>>, s: Seq<char>, pos: int) -> Seq<Seq<char>>
    decreases s.len() - pos,
{
    if 0 <= pos <= s.len() {
        proof {
            lemma_scan(s, pos, not_sep());
        }
        let end = scan(s, pos, not_sep());
        let next = push_component(kept, component_at(s, pos));
        if end >= s.len() {
            next
        } else {
            components_from(next, s, end + 1)
        }
    } else {
        kept
    }
}

/// The components joined by separators.
pub open spec fn join_components(cs: Seq<Seq<char>>) -> Seq<char>
    decreases cs.len(),
{
    if cs.len() == 0 {
        Seq::empty()
    } else if cs.len() == 1 {
        cs[0]
    } else {
        join_components(cs.drop_last()).push('/') + cs.last()
    }
}

/// The canonical form of a path.
pub open spec fn canonical(s: Seq<char>) -> Seq<char> {
    if s.len() == 0 {
        s
    } else {
        let body = join_components(components_from(Seq::empty(), s, 0));
        if s[0] == '/' {
            seq!['/'] + body
        } else if body.len() == 0 {
            seq!['.']
        } else {
            body
        }
    }
}

/// The bytes of a path read as characters of the same number.
pub open spec fn bytes_as_chars(b: Seq<u8>) -> Seq<char> {
    Seq::new(b.len(), |i: int| b[i] as char)
}

/// A component list that canonicalization leaves alone.
pub open spec fn is_reduced(cs: Seq<Seq<char>>) -> bool {
    &&& forall|i: int| 0 <= i < cs.len() ==> {
        &&& (#[trigger] cs[i]).len() > 0
        &&& cs[i] != seq!['.']
        &&& !cs[i].contains('/')
    }
    &&& forall|i: int|
        0 < i < cs.len() && #[trigger] cs[i] == seq!['.', '.'] ==> cs[i - 1] == seq!['.', '.']
}

/// True if `c` separates path components.
pub fn is_path_separator(c: u8) -> (r: bool)
    ensures
        r == (c == 47),
{
    c == 47
}

spec fn ranges(s: Seq<char>, r: Seq<(usize, usize)>) -> Seq<Seq<char>> {
    Seq::new(r.len(), |i: int| s.subrange(r[i].0 as int, r[i].1 as int))
}

spec fn ranges_ok(s: Seq<char>, r: Seq<(usize, usize)>) -> bool {
    forall|i: int| 0 <= i < r.len() ==> (#[trigger] r[i]).0 <= r[i].1 <= s.len()
}

/// The canonical form of the path `v`.
pub fn canonicalize_chars(v: &Vec<char>) -> (r: Vec<char>)
    ensures
        r@ == canonical(v@),
{
    let n: usize = v.len();
    let mut out: Vec<char> = Vec::new();
    if n == 0 {
        return out;
    }
    let ghost want = components_from(Seq::empty(), v@, 0);
    let mut kept: Vec<(usize, usize)> = Vec::new();
    let mut pos: usize = 0;
    let mut more: bool = true;
    assert(ranges(v@, kept@) =~= Seq::empty());
    while more
        invariant
            n == v.len(),
            pos <= n,
            ranges_ok(v@, kept@),
            more ==> components_from(ranges(v@, kept@), v@, pos as int) == want,
            !more ==> ranges(v@, kept@) == want,
        decreases (if more { 1int } else { 0 }) + n - pos,
    {
        let mut end: usize = pos;
        while end < n && v[end] != '/'
            invariant
                n == v.len(),
                pos <= end <= n,
                scan(v@, end as int, not_sep()) == scan(v@, pos as int, not_sep()),
            decreases n - end,
        {
            end += 1;
        }
        let ghost c = component_at(v@, pos as int);
        let ghost before = ranges(v@, kept@);
        assert(end == scan(v@, pos as int, not_sep()));
        assert(c == v@.subrange(pos as int, end as int));
        let len: usize = end - pos;
        if len == 0 || (len == 1 && v[pos] == '.') {
            assert(c.len() == 0 || c =~= seq!['.']);
            assert(push_component(before, c) == before);
        } else {
            assert(c.len() > 0);
            assert(c != seq!['.']) by {
                if c == seq!['.'] {
                    assert(c[0] == v@[pos as int]);
                }
            }
            let dotdot: bool = len == 2 && v[pos] == '.' && v[pos + 1] == '.';
            assert(dotdot == (c == seq!['.', '.'])) by {
                if dotdot {
                    assert(c =~= seq!['.', '.']);
                } else if c == seq!['.', '.'] {
                    assert(c[0] == v@[pos as int]);
                    assert(c[1] == v@[pos + 1]);
                }
            }
            let mut pop: bool = false;
            if dotdot && kept.len() > 0 {
                let (a, b) = kept[kept.len() - 1];
                let ghost l = before.last();
                assert(l == v@.subrange(a as int, b as int));
                pop = !(b - a == 2 && v[a] == '.' && v[a + 1] == '.');
                assert(pop == (l != seq!['.', '.'])) by {
                    if !pop {
                        assert(l =~= seq!['.', '.']);
                    } else if l == seq!['.', '.'] {
                        assert(l[0] == v@[a as int]);
                        assert(l[1] == v@[a + 1]);
                    }
                }
            }
            if pop {
                let ghost old_kept = kept@;
                kept.pop();
                assert(ranges(v@, kept@) =~= before.drop_last());
            } else {
                kept.push((pos, end));
                assert(ranges(v@, kept@) =~= before.push(c));
            }
        }
        assert(ranges(v@, kept@) == push_component(before, c));
        if end == n {
            more = false;
            pos = n;
        } else {
            pos = end + 1;
        }
    }
    if v[0] == '/' {
        out.push('/');
    }
    let ghost lead = out@;
    let ghost cs = ranges(v@, kept@);
    let mut i: usize = 0;
    assert(out@ =~= lead + join_components(cs.take(0)));
    while i < kept.len()
        invariant
            i <= kept.len(),
            cs == ranges(v@, kept@),
            ranges_ok(v@, kept@),
            out@ == lead + join_components(cs.take(i as int)),
        decreases kept.len() - i,
    {
        let ghost before = out@;
        let (a, b) = kept[i];
        if i > 0 {
            out.push('/');
        }
        let ghost start = out@;
        let mut j: usize = a;
        while j < b
            invariant
                a <= j <= b <= v.len(),
                out@ == start + v@.subrange(a as int, j as int),
            decreases b - j,
        {
            out.push(v[j]);
            j += 1;
            assert(v@.subrange(a as int, j as int) =~= v@.subrange(a as int, j - 1).push(v@[j - 1]));
        }
        proof {
            let t = cs.take(i + 1);
            assert(t.drop_last() =~= cs.take(i as int));
            assert(t.last() == cs[i as int]);
            assert(cs[i as int] == v@.subrange(a as int, b as int));
            if i == 0 {
                assert(join_components(cs.take(0)) =~= Seq::<char>::empty());
                assert(out@ =~= lead + join_components(t));
            } else {
                assert(out@ =~= lead + join_components(t));
            }
        }
        i += 1;
    }
    assert(cs.take(kept.len() as int) =~= cs);
    if out.len() == 0 {
        out.push('.');
    }
    proof {
        let body = join_components(cs);
        if v@[0] == '/' {
            assert(lead =~= seq!['/']);
            assert(out@ =~= seq!['/'] + body);
        } else {
            assert(lead =~= Seq::<char>::empty());
            assert(lead + body =~= body);
            if body.len() == 0 {
                assert(out@ =~= seq!['.']);
            }
        }
    }
    out
}

/// Canonicalize `path` in place, returning its "slash bits": a mask of
/// separators spelled otherwise, always 0 where `/` is the only separator.
pub fn canonicalize_path(path: &mut String) -> (bits: u64)
    ensures
        bits == 0,
        final(path)@ == canonical(old(path)@),
{
    let v = chars_of(path.as_str());
    let r = canonicalize_chars(&v);
    *path = string_of(r.as_slice(), 0, r.len());
    assert(r@.subrange(0, r.len() as int) =~= r@);
    0
}

/// Canonicalize a path, returning the result and its slash bits.
pub fn canonicalized(path: &str) -> (r: (String, u64))
    ensures
        r.0@ == canonical(path@),
        r.1 == 0,
{
    let mut s = path.to_owned();
    let bits = canonicalize_path(&mut s);
    (s, bits)
}

/// Canonicalize raw bytes in place, returning the slash bits.
pub fn canonicalize_bytes(v: &mut Vec<u8>) -> (bits: u64)
    ensures
        bits == 0,
        bytes_as_chars(final(v)@) == canonical(bytes_as_chars(old(v)@)),
{
    let n: usize = v.len();
    let mut cs: Vec<char> = Vec::new();
    let mut i: usize = 0;
    while i < n
        invariant
            n == v.len(),
            i <= n,
            cs@ == bytes_as_chars(v@).take(i as int),
        decreases n - i,
    {
        cs.push(v[i] as char);
        i += 1;
    }
    assert(bytes_as_chars(v@).take(n as int) =~= bytes_as_chars(v@));
    let r = canonicalize_chars(&cs);
    proof {
        lemma_canonical_chars(cs@, |c: char| (c as int) < 256);
    }
    let mut out: Vec<u8> = Vec::new();
    let mut j: usize = 0;
    while j < r.len()
        invariant
            j <= r.len(),
            forall|k: int| 0 <= k < r.len() ==> ((#[trigger] r@[k]) as int) < 256,
            out.len() == j,
            bytes_as_chars(out@) == r@.take(j as int),
        decreases r.len() - j,
    {
        let c = r[j];
        assert(c == r@[j as int]);
        proof {
            lemma_char_number(c);
        }
        let u: u32 = c as u32;
        assert(u < 256);
        let b: u8 = u as u8;
        assert(b as char == c);
        out.push(b);
        assert(bytes_as_chars(out@) =~= r@.take(j + 1));
        j += 1;
    }
    assert(r@.take(r.len() as int) =~= r@);
    *v = out;
    0
}

/// Restore the original separator spelling recorded in `slash_bits`. With `/`
/// as the only separator there is nothing to restore.
pub fn decanonicalize(path: &str, slash_bits: u64) -> (r: String)
    ensures
        r@ == path@,
{
    path.to_owned()
}

spec fn all_chars(s: Seq<char>, p: spec_fn(char) -> bool) -> bool {
    forall|i: int| 0 <= i < s.len() ==> p(#[trigger] s[i])
}

spec fn all_component_chars(cs: Seq<Seq<char>>, p: spec_fn(char) -> bool) -> bool {
    forall|i: int| 0 <= i < cs.len() ==> all_chars(#[trigger] cs[i], p)
}

proof fn lemma_components_chars(
    kept: Seq<Seq<char>>,
    s: Seq<char>,
    pos: int,
    p: spec_fn(char) -> bool,
)
    requires
        all_chars(s, p),
        all_component_chars(kept, p),
        0 <= pos <= s.len(),
    ensures
        all_component_chars(components_from(kept, s, pos), p),
    decreases s.len() - pos,
{
    lemma_scan(s, pos, not_sep());
    let end = scan(s, pos, not_sep());
    let next = push_component(kept, component_at(s, pos));
    assert(all_chars(component_at(s, pos), p));
    assert(all_component_chars(next, p));
    if end < s.len() {
        lemma_components_chars(next, s, end + 1, p);
    }
}

proof fn lemma_join_chars(cs: Seq<Seq<char>>, p: spec_fn(char) -> bool)
    requires
        all_component_chars(cs, p),
        p('/'),
    ensures
        all_chars(join_components(cs), p),
    decreases cs.len(),
{
    if cs.len() > 1 {
        assert(all_component_chars(cs.drop_last(), p));
        lemma_join_chars(cs.drop_last(), p);
        assert(all_chars(cs.last(), p));
    } else if cs.len() == 1 {
        assert(all_chars(cs[0], p));
    }
}

proof fn lemma_canonical_chars(s: Seq<char>, p: spec_fn(char) -> bool)
    requires
        forall|i: int| 0 <= i < s.len() ==> p(#[trigger] s[i]),
        p('/'),
        p('.'),
    ensures
        forall|i: int| 0 <= i < canonical(s).len() ==> p(#[trigger] canonical(s)[i]),
{
    assert(all_chars(s, p));
    if s.len() > 0 {
        lemma_components_chars(Seq::empty(), s, 0, p);
        lemma_join_chars(components_from(Seq::empty(), s, 0), p);
        let body = join_components(components_from(Seq::empty(), s, 0));
        assert(all_chars(body, p));
        assert(all_chars(canonical(s), p));
    }
}

/// Every component that canonicalization keeps is a real one: it is not empty,
/// not `.`, holds no separator, and `..` stands only in front, where there is
/// nothing for it to take back.
pub proof fn law_components_are_reduced(kept: Seq<Seq<char>>, s: Seq<char>, pos: int)
    requires
        is_reduced(kept),
        0 <= pos <= s.len(),
    ensures
        is_reduced(components_from(kept, s, pos)),
    decreases s.len() - pos,
{
    lemma_scan(s, pos, not_sep());
    let end = scan(s, pos, not_sep());
    let c = component_at(s, pos);
    let next = push_component(kept, c);
    assert(!c.contains('/')) by {
        if c.contains('/') {
            let k = choose|k: int| 0 <= k < c.len() && c[k] == '/';
            assert(not_sep()(s[pos + k]));
        }
    }
    assert(is_reduced(next)) by {
        if c.len() == 0 || c == seq!['.'] {
        } else if c == seq!['.', '.'] && kept.len() > 0 && kept.last() != seq!['.', '.'] {
            assert forall|i: int|
                0 < i < next.len() && #[trigger] next[i] == seq!['.', '.'] implies next[i - 1]
                == seq!['.', '.'] by {
                assert(kept[i] == seq!['.', '.']);
            }
        } else {
            assert forall|i: int|
                0 < i < next.len() && #[trigger] next[i] == seq!['.', '.'] implies next[i - 1]
                == seq!['.', '.'] by {
                if i < kept.len() {
                    assert(kept[i] == seq!['.', '.']);
                }
            }
        }
    }
    if end < s.len() {
        law_components_are_reduced(next, s, end + 1);
    }
}

spec fn fold_components(cs: Seq<Seq<char>>) -> Seq<Seq<char>>
    decreases cs.len(),
{
    if cs.len() == 0 {
        Seq::empty()
    } else {
        push_component(fold_components(cs.drop_last()), cs.last())
    }
}

spec fn no_seps(cs: Seq<Seq<char>>) -> bool {
    forall|i: int| 0 <= i < cs.len() ==> !(#[trigger] cs[i]).contains('/')
}

proof fn lemma_append_component(kept: Seq<Seq<char>>, s: Seq<char>, pos: int, t: Seq<char>)
    requires
        0 <= pos <= s.len(),
        !t.contains('/'),
    ensures
        components_from(kept, s.push('/') + t, pos) == push_component(
            components_from(kept, s, pos),
            t,
        ),
    decreases s.len() - pos,
{
    let w = s.push('/') + t;
    lemma_scan(s, pos, not_sep());
    let end = scan(s, pos, not_sep());
    assert forall|k: int| pos <= k < end implies not_sep()(#[trigger] w[k]) by {
        assert(w[k] == s[k]);
    }
    assert(w[end] == '/');
    lemma_scan_is(w, pos, not_sep(), end);
    assert(component_at(w, pos) =~= component_at(s, pos));
    let next = push_component(kept, component_at(s, pos));
    if end < s.len() {
        lemma_append_component(next, s, end + 1, t);
    } else {
        let from = s.len() + 1;
        assert forall|k: int| from <= k < w.len() implies not_sep()(#[trigger] w[k]) by {
            assert(w[k] == t[k - from]);
            assert(t.contains(t[k - from]));
        }
        lemma_scan_is(w, from as int, not_sep(), w.len() as int);
        assert(component_at(w, from as int) =~= t);
        assert(components_from(next, w, end + 1) == push_component(next, t));
    }
    assert(components_from(kept, w, pos) == components_from(next, w, end + 1));
}

proof fn lemma_single_component(t: Seq<char>)
    requires
        !t.contains('/'),
    ensures
        components_from(Seq::empty(), t, 0) == push_component(Seq::empty(), t),
{
    assert forall|k: int| 0 <= k < t.len() implies not_sep()(#[trigger] t[k]) by {
        assert(t.contains(t[k]));
    }
    lemma_scan_is(t, 0, not_sep(), t.len() as int);
    assert(component_at(t, 0) =~= t);
}

proof fn lemma_components_of_join(cs: Seq<Seq<char>>)
    requires
        cs.len() > 0,
        no_seps(cs),
    ensures
        components_from(Seq::empty(), join_components(cs), 0) == fold_components(cs),
    decreases cs.len(),
{
    assert(!cs.last().contains('/'));
    if cs.len() == 1 {
        assert(fold_components(cs.drop_last()) =~= Seq::empty());
        lemma_single_component(cs[0]);
    } else {
        assert(no_seps(cs.drop_last()));
        lemma_components_of_join(cs.drop_last());
        lemma_append_component(
            Seq::empty(),
            join_components(cs.drop_last()),
            0,
            cs.last(),
        );
    }
}

proof fn lemma_fold_reduced(cs: Seq<Seq<char>>)
    requires
        is_reduced(cs),
    ensures
        fold_components(cs) == cs,
    decreases cs.len(),
{
    if cs.len() > 0 {
        let front = cs.drop_last();
        assert(is_reduced(front)) by {
            assert forall|i: int|
                0 < i < front.len() && #[trigger] front[i] == seq!['.', '.'] implies front[i - 1]
                == seq!['.', '.'] by {
                assert(cs[i] == seq!['.', '.']);
            }
        }
        lemma_fold_reduced(front);
        let l = cs.last();
        assert(l == cs[cs.len() - 1]);
        if front.len() > 0 && l == seq!['.', '.'] {
            assert(cs[cs.len() - 1 - 1] == seq!['.', '.']);
        }
        assert(push_component(front, l) =~= cs);
    } else {
        assert(fold_components(cs) =~= cs);
    }
}

proof fn lemma_fold_with_lead(cs: Seq<Seq<char>>)
    requires
        is_reduced(cs),
        cs.len() > 0,
    ensures
        fold_components(seq![Seq::<char>::empty()] + cs) == cs,
        join_components(seq![Seq::<char>::empty()] + cs) == seq!['/'] + join_components(cs),
    decreases cs.len(),
{
    let e = seq![Seq::<char>::empty()];
    let w = e + cs;
    let front = cs.drop_last();
    assert(w.drop_last() =~= e + front);
    assert(w.last() == cs.last());
    assert(is_reduced(front)) by {
        assert forall|i: int|
            0 < i < front.len() && #[trigger] front[i] == seq!['.', '.'] implies front[i - 1]
            == seq!['.', '.'] by {
            assert(cs[i] == seq!['.', '.']);
        }
    }
    if front.len() > 0 {
        lemma_fold_with_lead(front);
        if cs.last() == seq!['.', '.'] {
            assert(cs[cs.len() - 1] == seq!['.', '.']);
            assert(cs[cs.len() - 1 - 1] == seq!['.', '.']);
        }
        assert(cs[cs.len() - 1] == cs.last());
        assert(push_component(front, cs.last()) =~= cs);
        assert(join_components(w) =~= seq!['/'] + join_components(cs));
    } else {
        assert(e + front =~= e);
        assert(e.drop_last() =~= Seq::<Seq<char>>::empty());
        assert(fold_components(e.drop_last()) =~= Seq::<Seq<char>>::empty());
        assert(fold_components(e) =~= Seq::<Seq<char>>::empty());
        assert(cs[0] == cs.last());
        assert(push_component(Seq::empty(), cs.last()) =~= cs);
        assert(join_components(e) == e[0]);
        assert(join_components(w) =~= seq!['/'] + join_components(cs));
    }
}

proof fn lemma_reduced_join_nonempty(cs: Seq<Seq<char>>)
    requires
        is_reduced(cs),
        cs.len() > 0,
    ensures
        join_components(cs).len() > 0,
        join_components(cs)[0] != '/',
    decreases cs.len(),
{
    assert(cs[0].len() > 0);
    assert(cs[0].contains(cs[0][0]));
    if cs.len() > 1 {
        let front = cs.drop_last();
        assert(is_reduced(front)) by {
            assert forall|i: int|
                0 < i < front.len() && #[trigger] front[i] == seq!['.', '.'] implies front[i - 1]
                == seq!['.', '.'] by {
                assert(cs[i] == seq!['.', '.']);
            }
        }
        lemma_reduced_join_nonempty(front);
        assert(front[0] == cs[0]);
    }
}

/// Canonicalization is idempotent: a canonical path is its own canonical form.
pub proof fn law_canonical_is_idempotent(s: Seq<char>)
    ensures
        canonical(canonical(s)) == canonical(s),
{
    if s.len() > 0 {
        let cs = components_from(Seq::empty(), s, 0);
        law_components_are_reduced(Seq::empty(), s, 0);
        assert(no_seps(cs));
        let body = join_components(cs);
        let c = canonical(s);
        if s[0] == '/' {
            assert(c[0] == '/');
            if cs.len() > 0 {
                let w = seq![Seq::<char>::empty()] + cs;
                lemma_fold_with_lead(cs);
                assert(no_seps(w)) by {
                    assert forall|i: int| 0 <= i < w.len() implies !(#[trigger] w[i]).contains(
                        '/',
                    ) by {
                        if i > 0 {
                            assert(w[i] == cs[i - 1]);
                        }
                    }
                }
                lemma_components_of_join(w);
                assert(components_from(Seq::empty(), c, 0) == cs);
            } else {
                assert(body =~= Seq::<char>::empty());
                let e = seq![Seq::<char>::empty(), Seq::<char>::empty()];
                assert(no_seps(e));
                lemma_components_of_join(e);
                assert(e.drop_last() =~= seq![Seq::<char>::empty()]);
                assert(e.drop_last().drop_last() =~= Seq::<Seq<char>>::empty());
                assert(fold_components(e.drop_last().drop_last()) =~= Seq::<Seq<char>>::empty());
                assert(fold_components(e.drop_last()) =~= Seq::<Seq<char>>::empty());
                assert(fold_components(e) =~= Seq::<Seq<char>>::empty());
                assert(join_components(e.drop_last()) == e.drop_last()[0]);
                assert(join_components(e) =~= seq!['/']);
                assert(c =~= seq!['/']);
            }
        } else if body.len() == 0 {
            let d = seq!['.'];
            assert(!d.contains('/'));
            lemma_single_component(d);
            assert(components_from(Seq::empty(), d, 0) =~= Seq::<Seq<char>>::empty());
            assert(join_components(Seq::<Seq<char>>::empty()) =~= Seq::<char>::empty());
            assert(canonical(d) =~= d);
        } else {
            assert(cs.len() > 0);
            lemma_reduced_join_nonempty(cs);
            lemma_components_of_join(cs);
            lemma_fold_reduced(cs);
        }
    }
}

spec fn spread(cs: Seq<Seq<char>>) -> int {
    join_components(cs).len() + if cs.len() > 0 { 1int } else { 0int }
}

proof fn lemma_components_length(kept: Seq<Seq<char>>, s: Seq<char>, pos: int)
    requires
        0 <= pos <= s.len(),
    ensures
        spread(components_from(kept, s, pos)) <= spread(kept) + s.len() - pos + 1,
    decreases s.len() - pos,
{
    lemma_scan(s, pos, not_sep());
    let end = scan(s, pos, not_sep());
    let c = component_at(s, pos);
    let next = push_component(kept, c);
    assert(spread(next) <= spread(kept) + c.len() + 1) by {
        if next == kept.push(c) {
            assert(kept.push(c).drop_last() =~= kept);
        }
        if kept.len() > 0 && next == kept.drop_last() {
            assert(join_components(kept).len() >= join_components(kept.drop_last()).len()) by {
                if kept.len() == 1 {
                    assert(join_components(kept.drop_last()) =~= Seq::<char>::empty());
                }
            }
        }
    }
    if end < s.len() {
        lemma_components_length(next, s, end + 1);
    }
}

/// Canonicalization never makes a path longer.
pub proof fn law_canonical_never_grows(s: Seq<char>)
    ensures
        canonical(s).len() <= s.len(),
{
    if s.len() > 0 {
        let e = Seq::<Seq<char>>::empty();
        assert(join_components(e) =~= Seq::<char>::empty());
        lemma_components_length(e, s, 0);
        if s[0] == '/' {
            lemma_scan(s, 0, not_sep());
            assert(scan(s, 0, not_sep()) == 0);
            assert(push_component(e, component_at(s, 0)) == e);
            lemma_components_length(e, s, 1);
        }
    }
}

/// The directory part of a path: what stands before the separators that
/// precede its last component.
pub open spec fn dir_part(s: Seq<char>) -> Seq<char> {
    let after = scan_back(s, s.len() as int, not_sep());
    if after == 0 {
        Seq::empty()
    } else {
        s.subrange(0, scan_back(s, after, sep()))
    }
}

/// The directory part of `path`, or `""` if there is none.
pub fn dir_name(path: &str) -> (r: &str)
    ensures
        r@ == dir_part(path@),
{
    let v = chars_of(path);
    let n: usize = v.len();
    let mut i: usize = n;
    while i > 0 && v[i - 1] != '/'
        invariant
            n == v.len(),
            i <= n,
            scan_back(v@, i as int, not_sep()) == scan_back(v@, n as int, not_sep()),
        decreases i,
    {
        i -= 1;
    }
    let ghost after = i as int;
    assert(after == scan_back(v@, n as int, not_sep()));
    if i == 0 {
        let r = path.substring_char(0, 0);
        assert(r@ =~= Seq::<char>::empty());
        return r;
    }
    while i > 0 && v[i - 1] == '/'
        invariant
            n == v.len(),
            i <= n,
            scan_back(v@, i as int, sep()) == scan_back(v@, after, sep()),
        decreases i,
    {
        i -= 1;
    }
    path.substring_char(0, i)
}

proof fn lemma_scan_shift(s: Seq<char>, k: int, p: int)
    requires
        0 <= k,
        0 <= p,
        k + p <= s.len(),
    ensures
        scan(s, k + p, not_sep()) == k + scan(s.skip(k), p, not_sep()),
    decreases s.len() - p,
{
    if k + p < s.len() {
        assert(s.skip(k)[p] == s[k + p]);
        if not_sep()(s[k + p]) {
            lemma_scan_shift(s, k, p + 1);
        }
    }
}

proof fn lemma_components_shift(kept: Seq<Seq<char>>, s: Seq<char>, k: int, p: int)
    requires
        0 <= k,
        0 <= p,
        k + p <= s.len(),
    ensures
        components_from(kept, s, k + p) == components_from(kept, s.skip(k), p),
    decreases s.len() - p,
{
    let r = s.skip(k);
    lemma_scan_shift(s, k, p);
    lemma_scan(s, k + p, not_sep());
    let end = scan(s, k + p, not_sep());
    assert(component_at(s, k + p) =~= component_at(r, p));
    if end < s.len() {
        lemma_components_shift(push_component(kept, component_at(r, p)), s, k, end - k + 1);
    }
}

proof fn lemma_components_split(kept: Seq<Seq<char>>, x: Seq<char>, y: Seq<char>, p: int)
    requires
        0 <= p <= x.len(),
    ensures
        components_from(kept, x + seq!['/'] + y, p) == components_from(
            components_from(kept, x, p),
            y,
            0,
        ),
    decreases x.len() - p,
{
    let s = x + seq!['/'] + y;
    lemma_scan(x, p, not_sep());
    lemma_scan(s, p, not_sep());
    let i = scan(x, p, not_sep());
    let j = scan(s, p, not_sep());
    assert(s[x.len() as int] == '/');
    assert forall|k: int| 0 <= k < x.len() implies s[k] == x[k] by {}
    assert(i == j) by {
        if j < i {
            assert(not_sep()(x[j]));
        }
        if i < j {
            assert(not_sep()(s[i]));
            if i < x.len() {
                assert(!not_sep()(x[i]));
            }
        }
    }
    assert(component_at(s, p) =~= component_at(x, p));
    let next = push_component(kept, component_at(x, p));
    if i < x.len() {
        lemma_components_split(next, x, y, i + 1);
    } else {
        lemma_components_shift(next, s, (x.len() + 1) as int, 0);
        assert(s.skip((x.len() + 1) as int) =~= y);
    }
}

proof fn lemma_one_component(kept: Seq<Seq<char>>, c: Seq<char>)
    requires
        !c.contains('/'),
    ensures
        components_from(kept, c, 0) == push_component(kept, c),
{
    lemma_scan(c, 0, not_sep());
    let end = scan(c, 0, not_sep());
    if end < c.len() {
        assert(c[end] == '/');
        assert(c.contains('/'));
    }
    assert(component_at(c, 0) =~= c);
}

/// Whether a text is the name of something in a directory.
pub open spec fn is_name(c: Seq<char>) -> bool {
    &&& c.len() > 0
    &&& c != seq!['.']
    &&& c != seq!['.', '.']
    &&& !c.contains('/')
}

/// A canonical path leads where the path leads: separators that follow another,
/// and `.`, lead nowhere, and going into a directory and back up again does not
/// either, wherever in a path that stands; a name that is none of these is kept,
/// behind where the path before it leads, and so is going up from where there is
/// nothing to go back from.
pub proof fn law_canonical_paths_lead_to_the_same(x: Seq<char>, c: Seq<char>, y: Seq<char>)
    requires
        x.len() > 0,
    ensures
        canonical(x + seq!['/'] + (seq!['/'] + y)) == canonical(x + seq!['/'] + y),
        canonical(x + seq!['/'] + (seq!['.', '/'] + y)) == canonical(x + seq!['/'] + y),
        canonical(x + seq!['/', '.']) == canonical(x),
        canonical(x + seq!['/']) == canonical(x),
        x[0] != '/' ==> canonical(seq!['.', '/'] + x) == canonical(x),
        is_name(c) ==> canonical(x + seq!['/'] + (c + seq!['/', '.', '.', '/'] + y)) == canonical(
            x + seq!['/'] + y,
        ),
        is_name(c) ==> canonical(x + seq!['/'] + c) == (if canonical(x) == seq!['/'] {
            seq!['/'] + c
        } else if canonical(x) == seq!['.'] {
            c
        } else {
            canonical(x) + seq!['/'] + c
        }),
        is_name(c) ==> canonical(c) == c,
        canonical(seq!['.', '.']) == seq!['.', '.'],
{
    let none = Seq::<Seq<char>>::empty();
    let kept = components_from(none, x, 0);
    let dot = seq!['.'];
    let up = seq!['.', '.'];
    let nothing = Seq::<char>::empty();
    assert(!dot.contains('/') && !up.contains('/') && !nothing.contains('/'));
    lemma_components_split(none, x, y, 0);
    // Another separator.
    lemma_components_split(none, x, seq!['/'] + y, 0);
    lemma_components_split(kept, nothing, y, 0);
    assert(nothing + seq!['/'] + y =~= seq!['/'] + y);
    lemma_one_component(kept, nothing);
    let s0 = x + seq!['/'] + y;
    let s1 = x + seq!['/'] + (seq!['/'] + y);
    assert(s0[0] == x[0] && s1[0] == x[0]);
    // A dot.
    let s2 = x + seq!['/'] + (seq!['.', '/'] + y);
    lemma_components_split(none, x, seq!['.', '/'] + y, 0);
    lemma_components_split(kept, dot, y, 0);
    assert(dot + seq!['/'] + y =~= seq!['.', '/'] + y);
    lemma_one_component(kept, dot);
    assert(s2[0] == x[0]);
    // At the end.
    let s3 = x + seq!['/', '.'];
    lemma_components_split(none, x, dot, 0);
    assert(x + seq!['/'] + dot =~= s3);
    assert(s3[0] == x[0]);
    let s4 = x + seq!['/'];
    lemma_components_split(none, x, nothing, 0);
    assert(x + seq!['/'] + nothing =~= s4);
    assert(s4[0] == x[0]);
    // At the start.
    let s5 = seq!['.', '/'] + x;
    lemma_components_split(none, dot, x, 0);
    assert(dot + seq!['/'] + x =~= s5);
    lemma_one_component(none, dot);
    assert(s5[0] == '.');
    lemma_one_component(none, up);
    assert(push_component(none, up) =~= seq![up]);
    assert(join_components(seq![up]) == up);
    assert(up[0] == '.');
    if is_name(c) {
        let s6 = x + seq!['/'] + (c + seq!['/', '.', '.', '/'] + y);
        lemma_components_split(none, x, c + seq!['/', '.', '.', '/'] + y, 0);
        lemma_components_split(kept, c, up + seq!['/'] + y, 0);
        assert(c + seq!['/'] + (up + seq!['/'] + y) =~= c + seq!['/', '.', '.', '/'] + y);
        lemma_one_component(kept, c);
        lemma_components_split(kept.push(c), up, y, 0);
        lemma_one_component(kept.push(c), up);
        assert(kept.push(c).drop_last() =~= kept);
        assert(s6[0] == x[0]);
        let s7 = x + seq!['/'] + c;
        lemma_components_split(none, x, c, 0);
        assert(s7[0] == x[0]);
        assert(kept.push(c).drop_last() =~= kept);
        lemma_joined(x, kept, c);
        lemma_one_component(none, c);
        assert(none.push(c) =~= seq![c]);
        assert(join_components(seq![c]) == c);
        assert(c[0] != '/') by {
            assert(c.contains(c[0]));
        }
    }
}

proof fn lemma_joined(x: Seq<char>, kept: Seq<Seq<char>>, c: Seq<char>)
    requires
        x.len() > 0,
        kept == components_from(Seq::empty(), x, 0),
        is_name(c),
    ensures
        ({
            let body = join_components(kept.push(c));
            let path = if x[0] == '/' {
                seq!['/'] + body
            } else {
                body
            };
            &&& body.len() > 0
            &&& path == (if canonical(x) == seq!['/'] {
                seq!['/'] + c
            } else if canonical(x) == seq!['.'] {
                c
            } else {
                canonical(x) + seq!['/'] + c
            })
        }),
{
    let none = Seq::<Seq<char>>::empty();
    law_components_are_reduced(none, x, 0);
    let before = join_components(kept);
    assert(kept.push(c).drop_last() =~= kept);
    if kept.len() == 0 {
        assert(kept.push(c) =~= seq![c]);
        assert(join_components(seq![c]) == c);
        assert(before.len() == 0);
        assert(seq!['/'] + before =~= seq!['/']);
    } else {
        assert(join_components(kept.push(c)) == before.push('/') + c);
        lemma_joined_start(kept);
        assert(before.push('/') + c =~= before + seq!['/'] + c);
        assert(seq!['/'] + (before + seq!['/'] + c) =~= (seq!['/'] + before) + seq!['/'] + c);
        assert((seq!['/'] + before).len() > 1);
        assert(before.take(kept[0].len() as int)[0] == kept[0][0]);
        assert(before[0] != '/') by {
            assert(kept[0].contains(kept[0][0]));
        }
        assert(before != seq!['/']) by {
            assert(seq!['/'][0] == '/');
        }
        assert((seq!['/'] + before)[0] == '/');
        assert(seq!['/'] + before != seq!['.']);
        assert(seq!['/'] + before != seq!['/']);
    }
}

proof fn lemma_joined_start(cs: Seq<Seq<char>>)
    requires
        is_reduced(cs),
        cs.len() > 0,
    ensures
        join_components(cs).len() > 0,
        join_components(cs) != seq!['.'],
        join_components(cs).len() >= cs[0].len(),
        join_components(cs).take(cs[0].len() as int) == cs[0],
        cs.len() > 1 ==> join_components(cs).len() > 1,
    decreases cs.len(),
{
    assert(cs[0].len() > 0);
    if cs.len() == 1 {
        assert(cs[0].take(cs[0].len() as int) =~= cs[0]);
    } else {
        let front = cs.drop_last();
        assert(is_reduced(front)) by {
            assert forall|i: int| 0 <= i < front.len() implies {
                &&& (#[trigger] front[i]).len() > 0
                &&& front[i] != seq!['.']
                &&& !front[i].contains('/')
            } by {
                assert(front[i] == cs[i]);
            }
            assert forall|i: int|
                0 < i < front.len() && #[trigger] front[i] == seq!['.', '.'] implies front[i - 1]
                == seq!['.', '.'] by {
                assert(cs[i] == front[i] && cs[i - 1] == front[i - 1]);
            }
        }
        lemma_joined_start(front);
        let j = join_components(front);
        let whole = join_components(cs);
        assert(whole == j.push('/') + cs.last());
        assert(whole.take(cs[0].len() as int) =~= j.take(cs[0].len() as int));
        assert(cs.last().len() > 0);
    }
}

/// The directory part of a path is what stands in front of the separators before
/// its last component, however many there are; a bare name has none.
pub proof fn law_names_stand_in_directories(d: Seq<char>, n: nat, c: Seq<char>)
    requires
        d.len() > 0,
        d.last() != '/',
        n > 0,
        forall|i: int| 0 <= i < c.len() ==> #[trigger] c[i] != '/',
    ensures
        dir_part(d + Seq::new(n, |i: int| '/') + c) == d,
        dir_part(c) == Seq::<char>::empty(),
{
    let s = d + Seq::new(n, |i: int| '/') + c;
    let m = (d.len() + n) as int;
    let after = scan_back(s, s.len() as int, not_sep());
    crate::text::lemma_scan_back(s, s.len() as int, not_sep());
    assert(s[m - 1] == '/');
    if after > m {
        assert(s[after - 1] == c[after - 1 - m]);
        assert(not_sep()(s[after - 1]));
    }
    if after < m {
        assert(not_sep()(s[m - 1]));
    }
    let end = scan_back(s, after, sep());
    crate::text::lemma_scan_back(s, after, sep());
    if end > d.len() {
        assert(s[end - 1] == '/');
        assert(sep()(s[end - 1]));
    }
    if end < d.len() {
        assert(sep()(s[d.len() - 1]));
        assert(s[d.len() - 1] == d.last());
    }
    assert(s.subrange(0, d.len() as int) =~= d);
    let alone = scan_back(c, c.len() as int, not_sep());
    crate::text::lemma_scan_back(c, c.len() as int, not_sep());
    if alone > 0 {
        assert(not_sep()(c[alone - 1]));
    }
}

} // verus!
