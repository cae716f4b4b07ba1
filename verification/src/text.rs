//! Text helpers: strings as sequences of characters, numbers as digits.

use vstd::prelude::*;
use vstd::string::*;
use vstd::utf8::*;

verus! {

/// `String::push` appends one character.
pub assume_specification[ String::push ](s: &mut String, c: char)
    ensures
        final(s)@ == old(s)@.push(c),
;

/// What `String::from_utf8_lossy` makes of bytes that are not UTF-8: the
/// characters they encode, with U+FFFD in place of what encodes none.
pub uninterp spec fn utf8_repaired(bytes: Seq<u8>) -> Seq<char>;

/// The text of bytes: what they encode, repaired where they are not UTF-8.
pub open spec fn utf8_lossy(bytes: Seq<u8>) -> Seq<char> {
    if valid_utf8(bytes) {
        decode_utf8(bytes)
    } else {
        utf8_repaired(bytes)
    }
}

/// `String::from_utf8_lossy`, as an owned string. On valid UTF-8 the result is
/// the decoded text; on anything else it is a function of the bytes.
#[verifier::external_body]
pub(crate) fn string_from_utf8_lossy(bytes: &[u8]) -> (r: String)
    ensures
        valid_utf8(bytes@) ==> r@ == decode_utf8(bytes@),
        !valid_utf8(bytes@) ==> r@ == utf8_repaired(bytes@),
{
    String::from_utf8_lossy(bytes).into_owned()
}

/// `String::from_utf8`: the text that `bytes` encode, or nothing when they are
/// not UTF-8.
#[verifier::external_body]
pub(crate) fn string_from_utf8(bytes: Vec<u8>) -> (r: Option<String>)
    ensures
        r is Some <==> valid_utf8(bytes@),
        r matches Some(s) ==> s@ == decode_utf8(bytes@),
{
    String::from_utf8(bytes).ok()
}

/// A character is a number below 0x110000.
pub proof fn lemma_char_number(c: char)
    ensures
        0 <= c as int <= 0x10ffff,
        (c as u32) as int == c as int,
{
}

/// The first position at or after `from` whose element does not satisfy `p`,
/// or the length when every element from there on does.
pub open spec fn scan<T>(s: Seq<T>, from: int, p: spec_fn(T) -> bool) -> int
    decreases s.len() - from,
{
    if 0 <= from < s.len() && p(s[from]) {
        scan(s, from + 1, p)
    } else {
        from
    }
}

/// The start of the run of elements satisfying `p` that ends just before `to`.
pub open spec fn scan_back<T>(s: Seq<T>, to: int, p: spec_fn(T) -> bool) -> int
    decreases to,
{
    if 0 < to <= s.len() && p(s[to - 1]) {
        scan_back(s, to - 1, p)
    } else {
        to
    }
}

/// A scan stops between its start and the end of the sequence; everything it
/// passed satisfies the predicate, and what it stopped at does not.
pub proof fn lemma_scan<T>(s: Seq<T>, from: int, p: spec_fn(T) -> bool)
    requires
        0 <= from <= s.len(),
    ensures
        from <= scan(s, from, p) <= s.len(),
        forall|k: int| from <= k < scan(s, from, p) ==> p(#[trigger] s[k]),
        scan(s, from, p) < s.len() ==> !p(s[scan(s, from, p)]),
    decreases s.len() - from,
{
    if from < s.len() && p(s[from]) {
        lemma_scan(s, from + 1, p);
    }
}

/// A scan is determined by where the predicate first fails.
pub proof fn lemma_scan_is<T>(s: Seq<T>, from: int, p: spec_fn(T) -> bool, to: int)
    requires
        0 <= from <= to <= s.len(),
        forall|k: int| from <= k < to ==> p(#[trigger] s[k]),
        to < s.len() ==> !p(s[to]),
    ensures
        scan(s, from, p) == to,
    decreases to - from,
{
    if from < to {
        assert(p(s[from]));
        lemma_scan_is(s, from + 1, p, to);
    }
}

/// A backward scan stays inside the sequence; everything it passed satisfies
/// the predicate, and what it stopped after does not.
pub proof fn lemma_scan_back<T>(s: Seq<T>, to: int, p: spec_fn(T) -> bool)
    requires
        0 <= to <= s.len(),
    ensures
        0 <= scan_back(s, to, p) <= to,
        forall|k: int| scan_back(s, to, p) <= k < to ==> p(#[trigger] s[k]),
        scan_back(s, to, p) > 0 ==> !p(s[scan_back(s, to, p) - 1]),
    decreases to,
{
    if 0 < to && p(s[to - 1]) {
        lemma_scan_back(s, to - 1, p);
    }
}

/// The characters of `s`.
pub fn chars_of(s: &str) -> (v: Vec<char>)
    ensures
        v@ == s@,
{
    let mut v: Vec<char> = Vec::new();
    for c in it: s.chars()
        invariant
            v@ == s@.subrange(0, it.index() as int),
            it.seq() == s@,
    {
        v.push(c);
    }
    v
}

/// The string made of the characters `v[from..to]`.
pub fn string_of(v: &[char], from: usize, to: usize) -> (s: String)
    requires
        from <= to <= v.len(),
    ensures
        s@ == v@.subrange(from as int, to as int),
{
    let mut s = String::new();
    let mut i: usize = from;
    while i < to
        invariant
            from <= i <= to <= v.len(),
            s@ == v@.subrange(from as int, i as int),
        decreases to - i,
    {
        s.push(v[i]);
        i += 1;
    }
    s
}

/// Append `src[from..to]`.
pub fn push_range(out: &mut Vec<u8>, src: &[u8], from: usize, to: usize)
    requires
        from <= to <= src@.len(),
    ensures
        final(out)@ == old(out)@ + src@.subrange(from as int, to as int),
{
    let mut i: usize = from;
    while i < to
        invariant
            from <= i <= to <= src@.len(),
            out@ == old(out)@ + src@.subrange(from as int, i as int),
        decreases to - i,
    {
        out.push(src[i]);
        i += 1;
        assert(src@.subrange(from as int, i as int) =~= src@.subrange(from as int, i - 1).push(
            src@[i - 1],
        ));
    }
}

/// `n` copies of `x`.
pub open spec fn repeated<T>(x: T, n: int) -> Seq<T> {
    Seq::new(n as nat, |i: int| x)
}

/// Append `n` copies of `b`.
pub fn push_repeated(out: &mut Vec<u8>, b: u8, n: usize)
    ensures
        final(out)@ == old(out)@ + repeated(b, n as int),
{
    let mut i: usize = 0;
    assert(out@ =~= old(out)@ + repeated(b, 0));
    while i < n
        invariant
            i <= n,
            out@ == old(out)@ + repeated(b, i as int),
        decreases n - i,
    {
        out.push(b);
        i += 1;
        assert(repeated(b, i as int) =~= repeated(b, i - 1).push(b));
    }
}

/// Append `n` copies of `c`.
pub fn push_repeated_char(out: &mut String, c: char, n: usize)
    ensures
        final(out)@ == old(out)@ + repeated(c, n as int),
{
    let mut i: usize = 0;
    assert(out@ =~= old(out)@ + repeated(c, 0));
    while i < n
        invariant
            i <= n,
            out@ == old(out)@ + repeated(c, i as int),
        decreases n - i,
    {
        out.push(c);
        i += 1;
        assert(repeated(c, i as int) =~= repeated(c, i - 1).push(c));
    }
}

/// The texts that `f` gives for each character, one after the other.
pub open spec fn flat_map(s: Seq<char>, f: spec_fn(char) -> Seq<char>) -> Seq<char>
    decreases s.len(),
{
    if s.len() == 0 {
        Seq::empty()
    } else {
        flat_map(s.drop_last(), f) + f(s.last())
    }
}

/// Whether two strings hold the same text.
pub fn str_eq(a: &str, b: &str) -> (r: bool)
    ensures
        r == (a@ == b@),
{
    let x = a.as_bytes();
    let y = b.as_bytes();
    if x.len() != y.len() {
        return false;
    }
    let mut i: usize = 0;
    while i < x.len()
        invariant
            i <= x.len() == y.len(),
            x@ == encode_utf8(a@),
            y@ == encode_utf8(b@),
            forall|k: int| 0 <= k < i ==> x@[k] == y@[k],
        decreases x.len() - i,
    {
        if x[i] != y[i] {
            return false;
        }
        i += 1;
    }
    proof {
        assert(x@ =~= y@);
        encode_utf8_decode_utf8(a@);
        encode_utf8_decode_utf8(b@);
    }
    true
}

/// The order of texts, character by character, a text after its prefixes.
pub open spec fn text_less(a: Seq<char>, b: Seq<char>) -> bool
    decreases a.len(),
{
    if b.len() == 0 {
        false
    } else if a.len() == 0 {
        true
    } else if a[0] != b[0] {
        a[0] < b[0]
    } else {
        text_less(a.drop_first(), b.drop_first())
    }
}

/// No text precedes itself.
pub proof fn lemma_text_less_irreflexive(a: Seq<char>)
    ensures
        !text_less(a, a),
    decreases a.len(),
{
    if a.len() > 0 {
        lemma_text_less_irreflexive(a.drop_first());
    }
}

/// Of two different texts, one precedes the other.
pub proof fn lemma_text_less_total(a: Seq<char>, b: Seq<char>)
    ensures
        a == b || text_less(a, b) || text_less(b, a),
    decreases a.len(),
{
    if a.len() > 0 && b.len() > 0 {
        if a[0] == b[0] {
            lemma_text_less_total(a.drop_first(), b.drop_first());
            if a.drop_first() == b.drop_first() {
                assert(a =~= seq![a[0]] + a.drop_first());
                assert(b =~= seq![b[0]] + b.drop_first());
            }
        }
    } else if a.len() == 0 && b.len() == 0 {
        assert(a =~= b);
    }
}

/// The order of texts is transitive.
pub proof fn lemma_text_less_transitive(a: Seq<char>, b: Seq<char>, c: Seq<char>)
    requires
        text_less(a, b),
        text_less(b, c),
    ensures
        text_less(a, c),
    decreases a.len(),
{
    if a.len() > 0 && a[0] == b[0] && b[0] == c[0] {
        lemma_text_less_transitive(a.drop_first(), b.drop_first(), c.drop_first());
    }
}

/// Whether `a` precedes `b`.
pub fn precedes(a: &str, b: &str) -> (r: bool)
    ensures
        r == text_less(a@, b@),
{
    let x = chars_of(a);
    let y = chars_of(b);
    let mut i: usize = 0;
    assert(x@.skip(0) =~= x@);
    assert(y@.skip(0) =~= y@);
    while i < x.len() && i < y.len() && x[i] == y[i]
        invariant
            i <= x.len(),
            i <= y.len(),
            text_less(x@.skip(i as int), y@.skip(i as int)) == text_less(x@, y@),
        decreases x.len() - i,
    {
        assert(x@.skip(i as int).drop_first() =~= x@.skip(i + 1));
        assert(y@.skip(i as int).drop_first() =~= y@.skip(i + 1));
        i += 1;
    }
    if i == y.len() {
        false
    } else if i == x.len() {
        true
    } else {
        x[i] < y[i]
    }
}

/// The views of strings.
pub open spec fn texts(v: Seq<String>) -> Seq<Seq<char>> {
    Seq::new(v.len(), |i: int| v[i]@)
}

/// A list of texts in strictly ascending order.
pub open spec fn ascending(s: Seq<Seq<char>>) -> bool {
    forall|i: int, j: int| 0 <= i < j < s.len() ==> text_less(#[trigger] s[i], #[trigger] s[j])
}

/// Whether a list holds exactly the texts of a set, in ascending order.
pub open spec fn lists(v: Seq<Seq<char>>, s: Set<Seq<char>>) -> bool {
    ascending(v) && forall|t: Seq<char>| #[trigger] v.contains(t) <==> s.contains(t)
}

/// The texts of a set in ascending order.
pub open spec fn in_ascending_order(set: Set<Seq<char>>) -> Seq<Seq<char>> {
    choose|v: Seq<Seq<char>>| lists(v, set)
}

/// A set has only one list.
pub proof fn lemma_lists_once(v: Seq<Seq<char>>, w: Seq<Seq<char>>, set: Set<Seq<char>>)
    requires
        lists(v, set),
        lists(w, set),
    ensures
        v == w,
    decreases v.len(),
{
    if v.len() == 0 {
        if w.len() > 0 {
            assert(w.contains(w[0]));
            assert(v.contains(w[0]));
        }
        assert(v =~= w);
    } else {
        assert(v.contains(v[0]));
        assert(w.contains(v[0]));
        let j = choose|j: int| 0 <= j < w.len() && w[j] == v[0];
        assert(w.contains(w[0]));
        assert(v.contains(w[0]));
        let i = choose|i: int| 0 <= i < v.len() && v[i] == w[0];
        if i > 0 && j > 0 {
            assert(text_less(v[0], v[i]));
            assert(text_less(w[0], w[j]));
            lemma_text_less_transitive(v[0], w[0], v[0]);
            lemma_text_less_irreflexive(v[0]);
        }
        assert(v[0] == w[0]);
        let first = v[0];
        let p = v.drop_first();
        let q = w.drop_first();
        let rest = set.remove(first);
        lemma_text_less_irreflexive(first);
        assert forall|t: Seq<char>| #[trigger] p.contains(t) <==> rest.contains(t) by {
            if p.contains(t) {
                let k = choose|k: int| 0 <= k < p.len() && p[k] == t;
                assert(v[k + 1] == t);
                assert(v.contains(t));
                assert(text_less(v[0], v[k + 1]));
            }
            if rest.contains(t) {
                assert(v.contains(t));
                let k = choose|k: int| 0 <= k < v.len() && v[k] == t;
                assert(p[k - 1] == t);
            }
        }
        assert forall|t: Seq<char>| #[trigger] q.contains(t) <==> rest.contains(t) by {
            if q.contains(t) {
                let k = choose|k: int| 0 <= k < q.len() && q[k] == t;
                assert(w[k + 1] == t);
                assert(w.contains(t));
                assert(text_less(w[0], w[k + 1]));
            }
            if rest.contains(t) {
                assert(w.contains(t));
                let k = choose|k: int| 0 <= k < w.len() && w[k] == t;
                assert(q[k - 1] == t);
            }
        }
        lemma_lists_once(p, q, rest);
        assert(v =~= seq![first] + p);
        assert(w =~= seq![first] + q);
    }
}

proof fn lemma_place(v: Seq<Seq<char>>, x: Seq<char>, k: int) -> (r: int)
    requires
        ascending(v),
        0 <= k <= v.len(),
        !v.contains(x),
        forall|i: int| 0 <= i < k ==> text_less(#[trigger] v[i], x),
    ensures
        k <= r <= v.len(),
        forall|i: int| 0 <= i < r ==> text_less(#[trigger] v[i], x),
        forall|i: int| r <= i < v.len() ==> text_less(x, #[trigger] v[i]),
    decreases v.len() - k,
{
    if k == v.len() {
        k
    } else {
        assert(v.contains(v[k]));
        lemma_text_less_total(v[k], x);
        if text_less(v[k], x) {
            lemma_place(v, x, k + 1)
        } else {
            assert forall|i: int| k <= i < v.len() implies text_less(x, #[trigger] v[i]) by {
                if i > k {
                    assert(text_less(v[k], v[i]));
                    lemma_text_less_transitive(x, v[k], v[i]);
                }
            }
            k
        }
    }
}

proof fn lemma_listed(set: Set<Seq<char>>) -> (v: Seq<Seq<char>>)
    requires
        set.finite(),
    ensures
        lists(v, set),
    decreases set.len(),
{
    if set.len() == 0 {
        let v = Seq::<Seq<char>>::empty();
        assert(set =~= Set::empty());
        v
    } else {
        let x = set.choose();
        let rest = set.remove(x);
        let u = lemma_listed(rest);
        assert(!u.contains(x)) by {
            assert(!rest.contains(x));
        }
        let k = lemma_place(u, x, 0);
        let v = u.insert(k, x);
        assert(v[k] == x);
        assert forall|i: int| 0 <= i < v.len() && i != k implies u[if i < k {
            i
        } else {
            i - 1
        }] == #[trigger] v[i] by {}
        assert forall|i: int, j: int| 0 <= i < j < v.len() implies text_less(
            #[trigger] v[i],
            #[trigger] v[j],
        ) by {
            let a = if i < k {
                i
            } else {
                i - 1
            };
            let b = if j < k {
                j
            } else {
                j - 1
            };
            if i == k {
                assert(v[j] == u[b]);
            } else if j == k {
                assert(v[i] == u[a]);
            } else {
                assert(v[i] == u[a] && v[j] == u[b]);
            }
        }
        assert forall|t: Seq<char>| #[trigger] v.contains(t) <==> set.contains(t) by {
            if v.contains(t) && t != x {
                let i = choose|i: int| 0 <= i < v.len() && v[i] == t;
                assert(u.contains(t));
                assert(rest.contains(t));
            }
            if set.contains(t) && t != x {
                assert(rest.contains(t));
                assert(u.contains(t));
                let i = choose|i: int| 0 <= i < u.len() && u[i] == t;
                assert(v[if i < k {
                    i
                } else {
                    i + 1
                }] == t);
            }
        }
        v
    }
}

/// The texts of a finite set in ascending order are just these.
pub proof fn lemma_in_ascending_order(set: Set<Seq<char>>)
    requires
        set.finite(),
    ensures
        lists(in_ascending_order(set), set),
{
    let v = lemma_listed(set);
    assert(lists(v, set));
}

/// A list of a set is as long as the set.
pub proof fn lemma_lists_len(v: Seq<Seq<char>>, set: Set<Seq<char>>)
    requires
        lists(v, set),
    ensures
        set.len() == v.len(),
{
    assert forall|i: int, j: int| 0 <= i < v.len() && 0 <= j < v.len() && i != j implies v[i]
        != v[j] by {
        lemma_text_less_irreflexive(v[i]);
        if i < j {
            assert(text_less(v[i], v[j]));
        } else {
            assert(text_less(v[j], v[i]));
        }
    }
    v.unique_seq_to_set();
    assert(set =~= v.to_set()) by {
        assert forall|t: Seq<char>| set.contains(t) <==> v.to_set().contains(t) by {
            assert(v.contains(t) <==> set.contains(t));
        }
    }
}

/// Put `x` where it belongs in the ascending list `v`, unless it is there.
pub fn insert_ascending(v: &mut Vec<String>, x: String)
    requires
        ascending(texts(old(v)@)),
    ensures
        ascending(texts(final(v)@)),
        forall|t: Seq<char>|
            #[trigger] texts(final(v)@).contains(t) <==> (texts(old(v)@).contains(t) || t == x@),
        texts(old(v)@).contains(x@) ==> final(v)@ == old(v)@,
{
    let ghost before = texts(v@);
    let mut i: usize = 0;
    while i < v.len() && precedes(v[i].as_str(), x.as_str())
        invariant
            i <= v.len(),
            v@ == old(v)@,
            before == texts(v@),
            forall|k: int| 0 <= k < i ==> text_less(#[trigger] before[k], x@),
        decreases v.len() - i,
    {
        assert(before[i as int] == v@[i as int]@);
        i += 1;
    }
    if i < v.len() && str_eq(v[i].as_str(), x.as_str()) {
        assert(before[i as int] == x@);
        return;
    }
    let ghost at = i as int;
    v.insert(i, x);
    proof {
        let after = texts(v@);
        assert(after =~= before.insert(at, x@));
        if at < before.len() {
            lemma_text_less_total(before[at], x@);
        }
        assert forall|a: int, b: int| 0 <= a < b < after.len() implies text_less(
            #[trigger] after[a],
            #[trigger] after[b],
        ) by {
            let oa = if a < at { a } else { a - 1 };
            let ob = if b < at { b } else { b - 1 };
            if a != at && b != at {
                assert(after[a] == before[oa] && after[b] == before[ob]);
            } else if a == at {
                assert(after[b] == before[b - 1]);
                if b - 1 > at {
                    lemma_text_less_transitive(x@, before[at], before[b - 1]);
                }
            } else {
                assert(after[a] == before[a]);
            }
        }
        assert forall|t: Seq<char>| #[trigger] after.contains(t) <==> (before.contains(t) || t
            == x@) by {
            if before.contains(t) {
                let k = choose|k: int| 0 <= k < before.len() && before[k] == t;
                if k < at {
                    assert(after[k] == t);
                } else {
                    assert(after[k + 1] == t);
                }
            }
            if t == x@ {
                assert(after[at] == t);
            }
            if after.contains(t) {
                let k = choose|k: int| 0 <= k < after.len() && after[k] == t;
                if k < at {
                    assert(before[k] == t);
                } else if k > at {
                    assert(before[k - 1] == t);
                }
            }
        }
        if before.contains(x@) {
            let k = choose|k: int| 0 <= k < before.len() && before[k] == x@;
            lemma_text_less_irreflexive(x@);
            if k < at {
                assert(text_less(before[k], x@));
            } else if k == at {
            } else {
                lemma_text_less_transitive(x@, before[at], before[k]);
            }
        }
    }
}

/// The character for a digit below sixteen.
pub open spec fn digit_char(d: int) -> char {
    if d < 10 {
        (48 + d) as char
    } else {
        (87 + d) as char
    }
}

/// A number in decimal notation.
pub open spec fn decimal(n: nat) -> Seq<char>
    decreases n,
{
    if n < 10 {
        seq![digit_char(n as int)]
    } else {
        decimal(n / 10).push(digit_char((n % 10) as int))
    }
}

/// A signed number in decimal notation.
pub open spec fn signed_decimal(i: int) -> Seq<char> {
    if i < 0 {
        seq!['-'] + decimal((-i) as nat)
    } else {
        decimal(i as nat)
    }
}

/// A number in hexadecimal notation, in lower case.
pub open spec fn hexadecimal(n: nat) -> Seq<char>
    decreases n,
{
    if n < 16 {
        seq![digit_char(n as int)]
    } else {
        hexadecimal(n / 16).push(digit_char((n % 16) as int))
    }
}

/// The character for a digit below sixteen.
pub fn digit(d: u8) -> (c: char)
    requires
        d < 16,
    ensures
        c == digit_char(d as int),
{
    if d < 10 {
        (48 + d) as char
    } else {
        (87 + d) as char
    }
}

/// Append `n` in decimal notation.
pub fn push_decimal(out: &mut String, n: u128)
    ensures
        final(out)@ == old(out)@ + decimal(n as nat),
    decreases n,
{
    if n >= 10 {
        push_decimal(out, n / 10);
    }
    out.push(digit((n % 10) as u8));
}

/// Append `i` in decimal notation.
pub fn push_signed(out: &mut String, i: i64)
    ensures
        final(out)@ == old(out)@ + signed_decimal(i as int),
{
    if i < 0 {
        out.push('-');
        let m: u64 = (-(i + 1)) as u64 + 1;
        push_decimal(out, m as u128);
        assert(final(out)@ =~= old(out)@ + signed_decimal(i as int));
    } else {
        push_decimal(out, i as u128);
    }
}

/// Append `n` in hexadecimal notation.
pub fn push_hexadecimal(out: &mut String, n: u64)
    ensures
        final(out)@ == old(out)@ + hexadecimal(n as nat),
    decreases n,
{
    if n >= 16 {
        push_hexadecimal(out, n / 16);
    }
    out.push(digit((n % 16) as u8));
}

/// Unicode's `White_Space` property.
pub open spec fn is_white_space(c: char) -> bool {
    let u = c as int;
    ||| 0x09 <= u <= 0x0d
    ||| u == 0x20
    ||| u == 0x85
    ||| u == 0xa0
    ||| u == 0x1680
    ||| 0x2000 <= u <= 0x200a
    ||| u == 0x2028
    ||| u == 0x2029
    ||| u == 0x202f
    ||| u == 0x205f
    ||| u == 0x3000
}

/// Whether `c` is white space.
pub fn white_space(c: char) -> (r: bool)
    ensures
        r == is_white_space(c),
{
    proof {
        lemma_char_number(c);
    }
    let u: u32 = c as u32;
    (0x09 <= u && u <= 0x0d) || u == 0x20 || u == 0x85 || u == 0xa0 || u == 0x1680 || (0x2000 <= u
        && u <= 0x200a) || u == 0x2028 || u == 0x2029 || u == 0x202f || u == 0x205f || u == 0x3000
}

/// Accepts white space.
pub open spec fn spaces() -> spec_fn(char) -> bool {
    |c: char| is_white_space(c)
}

/// Accepts the ASCII digits.
pub open spec fn digits() -> spec_fn(char) -> bool {
    |c: char| '0' <= c <= '9'
}

/// The number that a run of decimal digits stands for.
pub open spec fn decimal_value(s: Seq<char>) -> nat
    decreases s.len(),
{
    if s.len() == 0 {
        0
    } else {
        decimal_value(s.drop_last()) * 10 + (s.last() as int - 48) as nat
    }
}

/// `n` brought into the range of an `i32`.
pub open spec fn clamp_i32(n: int) -> int {
    if n < i32::MIN {
        i32::MIN as int
    } else if n > i32::MAX {
        i32::MAX as int
    } else {
        n
    }
}

/// The number at the front of a text: white space is skipped, a sign may
/// precede the digits, and whatever follows them is ignored. Digits that are
/// missing, or that do not fit in 64 bits, count as 0; the result is brought
/// into the range of an `i32`.
pub open spec fn leading_int(s: Seq<char>) -> int {
    let a = scan(s, 0, spaces());
    let signed = a < s.len() && (s[a] == '-' || s[a] == '+');
    let neg = a < s.len() && s[a] == '-';
    let b = if signed { a + 1 } else { a };
    let v = decimal_value(s.subrange(b, scan(s, b, digits())));
    let w = if v > i64::MAX { 0 } else { v as int };
    clamp_i32(if neg { -w } else { w })
}

proof fn lemma_decimal_value_grows(s: Seq<char>, i: int, j: int)
    requires
        0 <= i <= j <= s.len(),
        forall|k: int| 0 <= k < s.len() ==> '0' <= #[trigger] s[k] <= '9',
    ensures
        decimal_value(s.take(i)) <= decimal_value(s.take(j)),
    decreases j - i,
{
    if i < j {
        lemma_decimal_value_grows(s, i, j - 1);
        assert(s.take(j).drop_last() =~= s.take(j - 1));
    }
}

/// The number at the front of `s`, in the manner of C's `atoi`.
pub fn parse_leading_int(s: &str) -> (r: i32)
    ensures
        r == leading_int(s@),
{
    let v = chars_of(s);
    let n: usize = v.len();
    let mut a: usize = 0;
    while a < n && white_space(v[a])
        invariant
            n == v.len(),
            a <= n,
            scan(v@, a as int, spaces()) == scan(v@, 0, spaces()),
        decreases n - a,
    {
        a += 1;
    }
    let mut neg: bool = false;
    let mut b: usize = a;
    if a < n && v[a] == '-' {
        neg = true;
        b = a + 1;
    } else if a < n && v[a] == '+' {
        b = a + 1;
    }
    let mut j: usize = b;
    let mut acc: u64 = 0;
    let mut fits: bool = true;
    let ghost end = scan(v@, b as int, digits());
    let ghost ds = v@.subrange(b as int, end);
    proof {
        lemma_scan(v@, b as int, digits());
        assert forall|k: int| 0 <= k < ds.len() implies '0' <= #[trigger] ds[k] <= '9' by {
            assert(digits()(v@[b + k]));
        }
    }
    while j < n && '0' <= v[j] && v[j] <= '9'
        invariant
            n == v.len(),
            b <= j <= n,
            j <= end <= n,
            end == scan(v@, b as int, digits()),
            scan(v@, j as int, digits()) == end,
            ds == v@.subrange(b as int, end),
            forall|k: int| 0 <= k < ds.len() ==> '0' <= #[trigger] ds[k] <= '9',
            fits ==> acc == decimal_value(ds.take(j - b)),
            fits ==> acc <= i64::MAX,
            !fits ==> decimal_value(ds.take(j - b)) > i64::MAX,
        decreases n - j,
    {
        proof {
            lemma_scan(v@, j + 1, digits());
            let t = ds.take(j + 1 - b);
            assert(t.drop_last() =~= ds.take(j - b));
            assert(t.last() == v@[j as int]);
            lemma_char_number(v@[j as int]);
        }
        let d: u64 = (v[j] as u32 - 48) as u64;
        if fits {
            let next: u128 = acc as u128 * 10 + d as u128;
            if next > i64::MAX as u128 {
                fits = false;
            } else {
                acc = next as u64;
            }
        }
        j += 1;
    }
    assert(j == end);
    assert(ds.take(j - b) =~= ds);
    let mut w: i64 = 0;
    if fits {
        w = acc as i64;
    }
    if neg {
        w = -w;
    }
    if w < i32::MIN as i64 {
        i32::MIN
    } else if w > i32::MAX as i64 {
        i32::MAX
    } else {
        w as i32
    }
}

/// A text without the white space at its ends.
pub open spec fn trimmed(s: Seq<char>) -> Seq<char> {
    let a = scan(s, 0, spaces());
    let b = scan_back(s, s.len() as int, spaces());
    if a < b {
        s.subrange(a, b)
    } else {
        Seq::empty()
    }
}

/// Whether a text is made of decimal digits.
pub open spec fn all_digits(s: Seq<char>) -> bool {
    forall|i: int| 0 <= i < s.len() ==> '0' <= #[trigger] s[i] <= '9'
}

/// The number that a text is, if it is one between `min` and `max`: an optional
/// sign and at least one digit.
pub open spec fn whole_number(s: Seq<char>, min: int, max: int) -> Option<int> {
    let signed = s.len() > 0 && (s[0] == '-' || s[0] == '+');
    let ds = if signed {
        s.skip(1)
    } else {
        s
    };
    let v = decimal_value(ds) as int;
    let w = if s.len() > 0 && s[0] == '-' {
        -v
    } else {
        v
    };
    if ds.len() > 0 && all_digits(ds) && min <= w <= max {
        Some(w)
    } else {
        None
    }
}

/// The value of a hexadecimal digit, or 16.
pub open spec fn hex_digit_value(c: char) -> nat {
    if '0' <= c <= '9' {
        (c as int - 48) as nat
    } else if 'a' <= c <= 'f' {
        (c as int - 87) as nat
    } else if 'A' <= c <= 'F' {
        (c as int - 55) as nat
    } else {
        16
    }
}

/// Whether a text is made of hexadecimal digits.
pub open spec fn all_hex_digits(s: Seq<char>) -> bool {
    forall|i: int| 0 <= i < s.len() ==> hex_digit_value(#[trigger] s[i]) < 16
}

/// The number that a run of hexadecimal digits stands for.
pub open spec fn hex_value(s: Seq<char>) -> nat
    decreases s.len(),
{
    if s.len() == 0 {
        0
    } else {
        hex_value(s.drop_last()) * 16 + hex_digit_value(s.last())
    }
}

/// The number that a text in hexadecimal notation is, if it is one that fits
/// in 64 bits: an optional plus sign and at least one digit.
pub open spec fn hex_number(s: Seq<char>) -> Option<int> {
    let ds = if s.len() > 0 && s[0] == '+' {
        s.skip(1)
    } else {
        s
    };
    if ds.len() > 0 && all_hex_digits(ds) && hex_value(ds) <= u64::MAX {
        Some(hex_value(ds) as int)
    } else {
        None
    }
}

/// The part of `v[from..to]` without white space at its ends.
pub fn trim_range(v: &[char], from: usize, to: usize) -> (r: (usize, usize))
    requires
        from <= to <= v@.len(),
    ensures
        from <= r.0 <= r.1 <= to,
        v@.subrange(r.0 as int, r.1 as int) == trimmed(v@.subrange(from as int, to as int)),
{
    let ghost s = v@.subrange(from as int, to as int);
    let mut a: usize = from;
    while a < to && white_space(v[a])
        invariant
            from <= a <= to <= v@.len(),
            s == v@.subrange(from as int, to as int),
            scan(s, a - from, spaces()) == scan(s, 0, spaces()),
        decreases to - a,
    {
        assert(s[a - from] == v@[a as int]);
        a += 1;
    }
    proof {
        if a < to {
            assert(s[a - from] == v@[a as int]);
        }
        assert(scan(s, 0, spaces()) == a - from);
    }
    let mut b: usize = to;
    while b > from && white_space(v[b - 1])
        invariant
            from <= b <= to <= v@.len(),
            s == v@.subrange(from as int, to as int),
            scan_back(s, b - from, spaces()) == scan_back(s, s.len() as int, spaces()),
        decreases b,
    {
        assert(s[b - from - 1] == v@[b - 1]);
        b -= 1;
    }
    proof {
        if b > from {
            assert(s[b - from - 1] == v@[b - 1]);
        }
        assert(scan_back(s, s.len() as int, spaces()) == b - from);
    }
    if a < b {
        assert(v@.subrange(a as int, b as int) =~= s.subrange(a - from, b - from));
        (a, b)
    } else {
        assert(v@.subrange(from as int, from as int) =~= Seq::<char>::empty());
        (from, from)
    }
}

/// The number that `v[from..to]` is, if it is one between `min` and `max`.
pub fn parse_whole(v: &[char], from: usize, to: usize, min: i64, max: i64) -> (r: Option<i64>)
    requires
        from <= to <= v@.len(),
    ensures
        match r {
            Some(n) => whole_number(
                v@.subrange(from as int, to as int),
                min as int,
                max as int,
            ) == Some(n as int),
            None => whole_number(v@.subrange(from as int, to as int), min as int, max as int) is None,
        },
{
    let ghost s = v@.subrange(from as int, to as int);
    let mut neg: bool = false;
    let mut start: usize = from;
    if from < to {
        assert(s[0] == v@[from as int]);
        if v[from] == '-' {
            neg = true;
            start = from + 1;
        } else if v[from] == '+' {
            start = from + 1;
        }
    }
    let ghost ds = if s.len() > 0 && (s[0] == '-' || s[0] == '+') {
        s.skip(1)
    } else {
        s
    };
    assert(ds =~= v@.subrange(start as int, to as int));
    if start == to {
        return None;
    }
    let mut acc: u128 = 0;
    let mut fits: bool = true;
    let mut j: usize = start;
    while j < to
        invariant
            from <= start <= j <= to <= v@.len(),
            ds == v@.subrange(start as int, to as int),
            s == v@.subrange(from as int, to as int),
            ds == (if s.len() > 0 && (s[0] == '-' || s[0] == '+') {
                s.skip(1)
            } else {
                s
            }),
            forall|k: int| 0 <= k < j - start ==> '0' <= #[trigger] ds[k] <= '9',
            fits ==> acc == decimal_value(ds.take(j - start)),
            fits ==> acc <= u64::MAX,
            !fits ==> decimal_value(ds.take(j - start)) > u64::MAX,
        decreases to - j,
    {
        let c = v[j];
        assert(ds[j - start] == c);
        if !('0' <= c && c <= '9') {
            assert(!all_digits(ds));
            return None;
        }
        proof {
            let t = ds.take(j + 1 - start);
            assert(t.drop_last() =~= ds.take(j - start));
            assert(t.last() == c);
            lemma_char_number(c);
        }
        let d: u128 = (c as u32 - 48) as u128;
        if fits {
            let next: u128 = acc * 10 + d;
            if next > u64::MAX as u128 {
                fits = false;
            } else {
                acc = next;
            }
        }
        j += 1;
    }
    assert(ds.take(to - start) =~= ds);
    assert(all_digits(ds));
    if !fits {
        return None;
    }
    let w: i128 = if neg {
        -(acc as i128)
    } else {
        acc as i128
    };
    if min as i128 <= w && w <= max as i128 {
        Some(w as i64)
    } else {
        None
    }
}

fn hex_digit(c: char) -> (r: u64)
    ensures
        r == hex_digit_value(c),
        r <= 16,
{
    proof {
        lemma_char_number(c);
    }
    let u: u32 = c as u32;
    if '0' <= c && c <= '9' {
        (u - 48) as u64
    } else if 'a' <= c && c <= 'f' {
        (u - 87) as u64
    } else if 'A' <= c && c <= 'F' {
        (u - 55) as u64
    } else {
        16
    }
}

/// The number that `v[from..to]` is in hexadecimal notation, if it is one.
pub fn parse_hex(v: &[char], from: usize, to: usize) -> (r: Option<u64>)
    requires
        from <= to <= v@.len(),
    ensures
        match r {
            Some(n) => hex_number(v@.subrange(from as int, to as int)) == Some(n as int),
            None => hex_number(v@.subrange(from as int, to as int)) is None,
        },
{
    let ghost s = v@.subrange(from as int, to as int);
    let mut start: usize = from;
    if from < to {
        assert(s[0] == v@[from as int]);
        if v[from] == '+' {
            start = from + 1;
        }
    }
    let ghost ds = if s.len() > 0 && s[0] == '+' {
        s.skip(1)
    } else {
        s
    };
    assert(ds =~= v@.subrange(start as int, to as int));
    if start == to {
        return None;
    }
    let mut acc: u128 = 0;
    let mut fits: bool = true;
    let mut j: usize = start;
    while j < to
        invariant
            from <= start <= j <= to <= v@.len(),
            ds == v@.subrange(start as int, to as int),
            s == v@.subrange(from as int, to as int),
            ds == (if s.len() > 0 && s[0] == '+' {
                s.skip(1)
            } else {
                s
            }),
            forall|k: int| 0 <= k < j - start ==> hex_digit_value(#[trigger] ds[k]) < 16,
            fits ==> acc == hex_value(ds.take(j - start)),
            fits ==> acc <= u64::MAX,
            !fits ==> hex_value(ds.take(j - start)) > u64::MAX,
        decreases to - j,
    {
        let c = v[j];
        assert(ds[j - start] == c);
        let d: u64 = hex_digit(c);
        if d >= 16 {
            assert(!all_hex_digits(ds));
            return None;
        }
        proof {
            let t = ds.take(j + 1 - start);
            assert(t.drop_last() =~= ds.take(j - start));
            assert(t.last() == c);
        }
        if fits {
            let next: u128 = acc * 16 + d as u128;
            if next > u64::MAX as u128 {
                fits = false;
            } else {
                acc = next;
            }
        }
        j += 1;
    }
    assert(ds.take(to - start) =~= ds);
    assert(all_hex_digits(ds));
    if fits {
        Some(acc as u64)
    } else {
        None
    }
}

proof fn lemma_digit_char(d: int)
    requires
        0 <= d < 16,
    ensures
        digit_char(d) as int == if d < 10 {
            48 + d
        } else {
            87 + d
        },
        hex_digit_value(digit_char(d)) == d,
        d < 10 ==> '0' <= digit_char(d) <= '9',
        !is_white_space(digit_char(d)),
{
}

/// Decimal notation reads back as the number.
pub proof fn law_decimal_reads_back(n: nat)
    ensures
        decimal(n).len() > 0,
        all_digits(decimal(n)),
        decimal_value(decimal(n)) == n,
    decreases n,
{
    lemma_digit_char((n % 10) as int);
    if n < 10 {
        lemma_digit_char(n as int);
        assert(decimal(n).drop_last() =~= Seq::<char>::empty());
        assert(decimal_value(decimal(n).drop_last()) == 0);
    } else {
        law_decimal_reads_back(n / 10);
        assert(decimal(n).drop_last() =~= decimal(n / 10));
    }
}

/// Hexadecimal notation reads back as the number.
pub proof fn law_hexadecimal_reads_back(n: nat)
    ensures
        hexadecimal(n).len() > 0,
        all_hex_digits(hexadecimal(n)),
        hex_value(hexadecimal(n)) == n,
        forall|i: int| 0 <= i < hexadecimal(n).len() ==> is_digit_char(#[trigger] hexadecimal(n)[i]),
    decreases n,
{
    lemma_digit_char((n % 16) as int);
    if n < 16 {
        lemma_digit_char(n as int);
        assert(hexadecimal(n).drop_last() =~= Seq::<char>::empty());
        assert(hex_value(hexadecimal(n).drop_last()) == 0);
    } else {
        law_hexadecimal_reads_back(n / 16);
        assert(hexadecimal(n).drop_last() =~= hexadecimal(n / 16));
    }
}

/// The characters of numbers: digits in lower case, and the minus sign.
pub open spec fn is_digit_char(c: char) -> bool {
    '0' <= c <= '9' || 'a' <= c <= 'f' || c == '-'
}

proof fn lemma_trimmed_digits(s: Seq<char>)
    requires
        forall|i: int| 0 <= i < s.len() ==> is_digit_char(#[trigger] s[i]),
    ensures
        trimmed(s) == s,
{
    if s.len() > 0 {
        assert(!spaces()(s[0]));
        assert(!spaces()(s[s.len() - 1]));
        assert(scan(s, 0, spaces()) == 0);
        assert(scan_back(s, s.len() as int, spaces()) == s.len());
        assert(s.subrange(0, s.len() as int) =~= s);
    } else {
        assert(trimmed(s) =~= s);
    }
}

/// A signed number in decimal notation reads back as the number, with white
/// space around it or without.
pub proof fn law_number_reads_back(i: int, min: int, max: int)
    requires
        min <= i <= max,
    ensures
        whole_number(trimmed(signed_decimal(i)), min, max) == Some(i),
        forall|k: int|
            0 <= k < signed_decimal(i).len() ==> is_digit_char(#[trigger] signed_decimal(i)[k]),
{
    let s = signed_decimal(i);
    let n = if i < 0 {
        (-i) as nat
    } else {
        i as nat
    };
    law_decimal_reads_back(n);
    let d = decimal(n);
    assert forall|k: int| 0 <= k < s.len() implies is_digit_char(#[trigger] s[k]) by {
        if i < 0 {
            if k > 0 {
                assert(s[k] == d[k - 1]);
            }
        } else {
            assert(s[k] == d[k]);
        }
    }
    lemma_trimmed_digits(s);
    if i < 0 {
        assert(s.skip(1) =~= d);
    } else {
        assert(s[0] == d[0]);
    }
}

/// A number in hexadecimal notation reads back as the number.
pub proof fn law_hash_reads_back(n: u64)
    ensures
        hex_number(trimmed(hexadecimal(n as nat))) == Some(n as int),
{
    law_hexadecimal_reads_back(n as nat);
    let s = hexadecimal(n as nat);
    lemma_trimmed_digits(s);
    assert(is_digit_char(s[0]));
}

/// The encoding of a text is the encodings of its parts, one after the other.
pub proof fn lemma_encode_concat(a: Seq<char>, b: Seq<char>)
    ensures
        encode_utf8(a + b) == encode_utf8(a) + encode_utf8(b),
    decreases a.len(),
{
    if a.len() == 0 {
        assert(a + b =~= b);
        assert(encode_utf8(a) + encode_utf8(b) =~= encode_utf8(b));
    } else {
        let w = a + b;
        assert(w.drop_first() =~= a.drop_first() + b);
        lemma_encode_concat(a.drop_first(), b);
        assert(encode_utf8(w) =~= encode_utf8(a) + encode_utf8(b));
    }
}

proof fn lemma_encode_scalar_bytes(c: char)
    ensures
        (c as int) < 128 ==> encode_scalar(c as u32) == seq![c as int as u8],
        (c as int) >= 128 ==> forall|i: int|
            0 <= i < encode_scalar(c as u32).len() ==> #[trigger] encode_scalar(c as u32)[i] >= 128,
{
    lemma_char_number(c);
    let u = c as u32;
    if u < 128 {
        assert((u & 0x7F) as u8 == u as u8) by (bit_vector)
            requires
                u < 128u32,
        ;
        assert(encode_scalar(u) =~= seq![u as u8]);
    } else {
        let a = ((u >> 6) & 0x1F) as u8;
        let b = ((u >> 12) & 0x0F) as u8;
        let d = ((u >> 18) & 0x7) as u8;
        let e = (u & 0x3F) as u8;
        let f = ((u >> 6) & 0x3F) as u8;
        let g = ((u >> 12) & 0x3F) as u8;
        assert(0xC0u8 | a >= 128u8 && 0xE0u8 | b >= 128u8 && 0xF0u8 | d >= 128u8 && 0x80u8 | e
            >= 128u8 && 0x80u8 | f >= 128u8 && 0x80u8 | g >= 128u8) by (bit_vector);
    }
}

/// A text without a line feed has an encoding without a byte of that number.
pub proof fn lemma_encode_no_newline(s: Seq<char>)
    requires
        !s.contains('\n'),
    ensures
        forall|i: int| 0 <= i < encode_utf8(s).len() ==> #[trigger] encode_utf8(s)[i] != 10,
    decreases s.len(),
{
    if s.len() > 0 {
        let c = s[0];
        assert(s.contains(c));
        let rest = s.drop_first();
        assert(!rest.contains('\n')) by {
            if rest.contains('\n') {
                let k = choose|k: int| 0 <= k < rest.len() && rest[k] == '\n';
                assert(s[k + 1] == '\n');
            }
        }
        lemma_encode_no_newline(rest);
        lemma_encode_scalar_bytes(c);
        lemma_char_number(c);
        let h = encode_scalar(c as u32);
        assert forall|i: int| 0 <= i < encode_utf8(s).len() implies #[trigger] encode_utf8(s)[i]
            != 10 by {
            if i < h.len() {
                assert(encode_utf8(s)[i] == h[i]);
                if (c as int) < 128 {
                    assert(h[i] == c as int as u8);
                    assert(c as int != 10);
                }
            } else {
                assert(encode_utf8(s)[i] == encode_utf8(rest)[i - h.len()]);
            }
        }
    }
}

/// The encoding of a line feed.
pub proof fn lemma_encode_newline()
    ensures
        encode_utf8(seq!['\n']) == seq![10u8],
{
    let s = seq!['\n'];
    lemma_encode_scalar_bytes('\n');
    assert(s.drop_first() =~= Seq::<char>::empty());
    assert(encode_utf8(s.drop_first()) =~= Seq::<u8>::empty());
    assert(encode_utf8(s) =~= seq![10u8]);
}

/// A text that does not end in NUL has an encoding that does not end in 0.
pub proof fn lemma_encode_last(s: Seq<char>)
    requires
        s.len() > 0,
        s.last() != '\0',
    ensures
        encode_utf8(s).len() > 0,
        encode_utf8(s).last() != 0,
    decreases s.len(),
{
    let rest = s.drop_first();
    let h = encode_scalar(s[0] as u32);
    lemma_encode_scalar_bytes(s[0]);
    lemma_char_number(s[0]);
    assert(h.len() > 0);
    if rest.len() == 0 {
        assert(encode_utf8(rest) =~= Seq::<u8>::empty());
        assert(encode_utf8(s) =~= h);
        let k = h.len() - 1;
        assert(h[k] == h.last());
    } else {
        lemma_encode_last(rest);
        assert(encode_utf8(s).last() == encode_utf8(rest).last());
    }
}

} // verus!
