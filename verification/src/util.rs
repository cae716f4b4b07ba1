//! Small helpers: edit distance, spell checking and number formatting.

use vstd::prelude::*;
use vstd::string::*;

use crate::text::push_signed;

verus! {

use crate::text::signed_decimal;

/// The smaller of two numbers.
pub open spec fn smaller(a: nat, b: nat) -> nat {
    if a < b {
        a
    } else {
        b
    }
}

/// The edit distance between the first `i` elements of `a` and the first `j`
/// of `b`: the least number of insertions, deletions and, where allowed,
/// replacements that turns one into the other.
pub open spec fn distance(a: Seq<u8>, b: Seq<u8>, replace: bool, i: nat, j: nat) -> nat
    decreases i, j,
{
    if i == 0 {
        j
    } else if j == 0 {
        i
    } else {
        let diagonal = distance(a, b, replace, (i - 1) as nat, (j - 1) as nat);
        let step = smaller(
            distance(a, b, replace, i, (j - 1) as nat),
            distance(a, b, replace, (i - 1) as nat, j),
        ) + 1;
        let same = a[i - 1] == b[j - 1];
        if replace {
            smaller(diagonal + if same { 0nat } else { 1nat }, step)
        } else if same {
            diagonal
        } else {
            step
        }
    }
}

/// Whether every distance from the first `i` elements of `a` exceeds `limit`.
pub open spec fn row_exceeds(a: Seq<u8>, b: Seq<u8>, replace: bool, i: nat, limit: nat) -> bool {
    forall|j: nat| j <= b.len() ==> #[trigger] distance(a, b, replace, i, j) > limit
}

/// What [`edit_distance`] reports: the distance, unless it is known to exceed
/// the limit (0 meaning none) before all of `a` has been looked at.
pub open spec fn limited_distance(a: Seq<u8>, b: Seq<u8>, replace: bool, limit: nat) -> nat {
    if limit != 0 && exists|i: nat| 1 <= i <= a.len() && #[trigger] row_exceeds(a, b, replace, i, limit) {
        limit + 1
    } else {
        distance(a, b, replace, a.len(), b.len())
    }
}

proof fn lemma_distance_bound(a: Seq<u8>, b: Seq<u8>, replace: bool, i: nat, j: nat)
    ensures
        distance(a, b, replace, i, j) <= i + j,
    decreases i, j,
{
    if i > 0 && j > 0 {
        lemma_distance_bound(a, b, replace, (i - 1) as nat, (j - 1) as nat);
        lemma_distance_bound(a, b, replace, i, (j - 1) as nat);
        lemma_distance_bound(a, b, replace, (i - 1) as nat, j);
    }
}

/// The distance does not depend on the order of its arguments.
pub proof fn law_distance_is_symmetric(a: Seq<u8>, b: Seq<u8>, replace: bool, i: nat, j: nat)
    ensures
        distance(a, b, replace, i, j) == distance(b, a, replace, j, i),
    decreases i, j,
{
    if i > 0 && j > 0 {
        law_distance_is_symmetric(a, b, replace, (i - 1) as nat, (j - 1) as nat);
        law_distance_is_symmetric(a, b, replace, i, (j - 1) as nat);
        law_distance_is_symmetric(a, b, replace, (i - 1) as nat, j);
    }
}

proof fn lemma_distance_self(a: Seq<u8>, replace: bool, i: nat)
    requires
        i <= a.len(),
    ensures
        distance(a, a, replace, i, i) == 0,
    decreases i,
{
    if i > 0 {
        lemma_distance_self(a, replace, (i - 1) as nat);
    }
}

proof fn lemma_distance_zero(a: Seq<u8>, b: Seq<u8>, replace: bool, i: nat, j: nat)
    requires
        i <= a.len(),
        j <= b.len(),
        distance(a, b, replace, i, j) == 0,
    ensures
        i == j,
        a.take(i as int) == b.take(j as int),
    decreases i,
{
    if i > 0 && j > 0 {
        lemma_distance_zero(a, b, replace, (i - 1) as nat, (j - 1) as nat);
        assert(a.take(i as int) =~= a.take(i - 1).push(a[i - 1]));
        assert(b.take(j as int) =~= b.take(j - 1).push(b[j - 1]));
    } else {
        assert(a.take(0) =~= b.take(0));
    }
}

/// Exactly the equal texts have distance 0.
pub proof fn law_distance_zero_iff_equal(a: Seq<u8>, b: Seq<u8>, replace: bool)
    ensures
        distance(a, b, replace, a.len(), b.len()) == 0 <==> a == b,
{
    if a == b {
        lemma_distance_self(a, replace, a.len());
    }
    if distance(a, b, replace, a.len(), b.len()) == 0 {
        lemma_distance_zero(a, b, replace, a.len(), b.len());
        assert(a.take(a.len() as int) =~= a);
        assert(b.take(b.len() as int) =~= b);
    }
}

proof fn lemma_next_row_exceeds(a: Seq<u8>, b: Seq<u8>, replace: bool, i: nat, limit: nat, j: nat)
    requires
        row_exceeds(a, b, replace, i, limit),
        j <= b.len(),
    ensures
        distance(a, b, replace, i + 1, j) > limit,
    decreases j,
{
    assert(distance(a, b, replace, i, j) > limit);
    if j > 0 {
        lemma_next_row_exceeds(a, b, replace, i, limit, (j - 1) as nat);
        assert(distance(a, b, replace, i, (j - 1) as nat) > limit);
    }
}

proof fn lemma_later_rows_exceed(a: Seq<u8>, b: Seq<u8>, replace: bool, i: nat, limit: nat, k: nat)
    requires
        row_exceeds(a, b, replace, i, limit),
        i <= k,
    ensures
        row_exceeds(a, b, replace, k, limit),
    decreases k - i,
{
    if i < k {
        assert forall|j: nat| j <= b.len() implies #[trigger] distance(a, b, replace, i + 1, j)
            > limit by {
            lemma_next_row_exceeds(a, b, replace, i, limit, j);
        }
        lemma_later_rows_exceed(a, b, replace, i + 1, limit, k);
    }
}

/// A limit never hides a small distance: a distance within the limit is
/// reported as it is, and a larger one is reported as something above the
/// limit.
pub proof fn law_limit_keeps_small_distances(a: Seq<u8>, b: Seq<u8>, replace: bool, limit: nat)
    requires
        limit != 0,
    ensures
        ({
            let d = distance(a, b, replace, a.len(), b.len());
            let r = limited_distance(a, b, replace, limit);
            &&& d <= limit ==> r == d
            &&& d > limit ==> r > limit
        }),
{
    if exists|i: nat| 1 <= i <= a.len() && #[trigger] row_exceeds(a, b, replace, i, limit) {
        let i = choose|i: nat| 1 <= i <= a.len() && #[trigger] row_exceeds(a, b, replace, i, limit);
        lemma_later_rows_exceed(a, b, replace, i, limit, a.len());
        assert(distance(a, b, replace, a.len(), b.len()) > limit);
    }
}

/// The distance between `a` and `b`, in a number that holds every distance.
pub fn wide_distance(a: &str, b: &str, replace: bool, limit: usize) -> (r: u128)
    ensures
        r == limited_distance(a.spec_bytes(), b.spec_bytes(), replace, limit as nat),
{
    let s1 = a.as_bytes();
    let s2 = b.as_bytes();
    let m: usize = s1.len();
    let n: usize = s2.len();
    let mut previous: Vec<u128> = Vec::new();
    previous.push(0);
    let mut k: usize = 0;
    while k < n
        invariant
            n == s2@.len(),
            k <= n,
            previous@.len() == k + 1,
            forall|j: int|
                0 <= j <= k ==> #[trigger] previous@[j] == distance(s1@, s2@, replace, 0, j as nat),
        decreases n - k,
    {
        previous.push(k as u128 + 1);
        k += 1;
    }
    let mut y: usize = 0;
    while y < m
        invariant
            m == s1@.len(),
            n == s2@.len(),
            y <= m,
            s1@ == a.spec_bytes(),
            s2@ == b.spec_bytes(),
            previous@.len() == n + 1,
            forall|j: int|
                0 <= j <= n ==> #[trigger] previous@[j] == distance(
                    s1@,
                    s2@,
                    replace,
                    y as nat,
                    j as nat,
                ),
            limit != 0 ==> forall|i: nat|
                1 <= i <= y ==> !#[trigger] row_exceeds(s1@, s2@, replace, i, limit as nat),
        decreases m - y,
    {
        let mut current: Vec<u128> = Vec::new();
        current.push(y as u128 + 1);
        let mut best: u128 = y as u128 + 1;
        let ghost row = (y + 1) as nat;
        let ghost mut at: nat = 0;
        assert(best == distance(s1@, s2@, replace, row, 0));
        let mut x: usize = 0;
        while x < n
            invariant
                m == s1@.len(),
                n == s2@.len(),
                y < m,
                row == y + 1,
                x <= n,
                current@.len() == x + 1,
                previous@.len() == n + 1,
                forall|j: int|
                    0 <= j <= n ==> #[trigger] previous@[j] == distance(
                        s1@,
                        s2@,
                        replace,
                        y as nat,
                        j as nat,
                    ),
                forall|j: int|
                    0 <= j <= x ==> #[trigger] current@[j] == distance(
                        s1@,
                        s2@,
                        replace,
                        row,
                        j as nat,
                    ),
                at <= x,
                best == distance(s1@, s2@, replace, row, at),
                forall|j: int| 0 <= j <= x ==> best <= #[trigger] current@[j],
            decreases n - x,
        {
            proof {
                lemma_distance_bound(s1@, s2@, replace, y as nat, x as nat);
                lemma_distance_bound(s1@, s2@, replace, row, x as nat);
                lemma_distance_bound(s1@, s2@, replace, y as nat, (x + 1) as nat);
            }
            let diagonal: u128 = previous[x];
            let left: u128 = current[x];
            let up: u128 = previous[x + 1];
            let step: u128 = if left < up {
                left + 1
            } else {
                up + 1
            };
            let same: bool = s1[y] == s2[x];
            let d: u128 = if replace {
                let sub: u128 = if same {
                    diagonal
                } else {
                    diagonal + 1
                };
                if sub < step {
                    sub
                } else {
                    step
                }
            } else if same {
                diagonal
            } else {
                step
            };
            assert(d == distance(s1@, s2@, replace, row, (x + 1) as nat));
            current.push(d);
            if d < best {
                best = d;
                proof {
                    at = (x + 1) as nat;
                }
            }
            x += 1;
        }
        if limit != 0 && best > limit as u128 {
            proof {
                assert forall|j: nat| j <= s2@.len() implies #[trigger] distance(
                    s1@,
                    s2@,
                    replace,
                    row,
                    j,
                ) > limit as nat by {
                    assert(current@[j as int] >= best);
                }
                assert(row_exceeds(s1@, s2@, replace, row, limit as nat));
            }
            return limit as u128 + 1;
        }
        proof {
            if limit != 0 && row_exceeds(s1@, s2@, replace, row, limit as nat) {
                assert(distance(s1@, s2@, replace, row, at) > limit);
            }
        }
        previous = current;
        y += 1;
    }
    previous[n]
}

/// Levenshtein distance between `a` and `b`, bailing out early once the
/// distance is known to exceed `max_edit_distance` (0 disables the cutoff).
pub fn edit_distance(a: &str, b: &str, allow_replacements: bool, max_edit_distance: usize) -> (r:
    usize)
    requires
        a.spec_bytes().len() + b.spec_bytes().len() <= usize::MAX,
    ensures
        r == limited_distance(
            a.spec_bytes(),
            b.spec_bytes(),
            allow_replacements,
            max_edit_distance as nat,
        ),
{
    let d: u128 = wide_distance(a, b, allow_replacements, max_edit_distance);
    proof {
        lemma_distance_bound(
            a.spec_bytes(),
            b.spec_bytes(),
            allow_replacements,
            a.spec_bytes().len(),
            b.spec_bytes().len(),
        );
        if max_edit_distance != 0 {
            law_limit_keeps_small_distances(
                a.spec_bytes(),
                b.spec_bytes(),
                allow_replacements,
                max_edit_distance as nat,
            );
        }
    }
    d as usize
}

/// The greatest distance at which a word is still offered as a correction.
pub const MAX_VALID_EDIT_DISTANCE: usize = 3;

/// The distance of `word` from `text`, as far as suggestions go.
pub open spec fn suggestion_distance(word: Seq<u8>, text: Seq<u8>) -> nat {
    limited_distance(word, text, true, MAX_VALID_EDIT_DISTANCE as nat)
}

/// `k` is the first of the closest words, and close enough to be suggested.
pub open spec fn is_suggestion(words: Seq<Seq<u8>>, text: Seq<u8>, k: int) -> bool {
    &&& 0 <= k < words.len()
    &&& suggestion_distance(words[k], text) <= MAX_VALID_EDIT_DISTANCE
    &&& forall|j: int|
        0 <= j < words.len() ==> suggestion_distance(words[k], text) <= suggestion_distance(
            #[trigger] words[j],
            text,
        )
    &&& forall|j: int|
        0 <= j < k ==> suggestion_distance(words[k], text) < suggestion_distance(
            #[trigger] words[j],
            text,
        )
}

/// Whether no word is close enough to be suggested.
pub open spec fn no_suggestion(words: Seq<Seq<u8>>, text: Seq<u8>) -> bool {
    forall|j: int|
        0 <= j < words.len() ==> suggestion_distance(#[trigger] words[j], text)
            > MAX_VALID_EDIT_DISTANCE
}

/// The place of the word to suggest for a text, if any is close enough.
pub open spec fn suggested(words: Seq<Seq<u8>>, text: Seq<u8>) -> Option<int> {
    if exists|k: int| is_suggestion(words, text, k) {
        Some(choose|k: int| is_suggestion(words, text, k))
    } else {
        None
    }
}

/// Only one word is suggested.
pub proof fn lemma_suggested(words: Seq<Seq<u8>>, text: Seq<u8>, k: int)
    ensures
        is_suggestion(words, text, k) ==> suggested(words, text) == Some(k),
        no_suggestion(words, text) ==> suggested(words, text) is None,
{
    if is_suggestion(words, text, k) {
        let j = choose|j: int| is_suggestion(words, text, j);
        assert(is_suggestion(words, text, j));
        assert(suggestion_distance(words[k], text) <= suggestion_distance(words[j], text));
        assert(suggestion_distance(words[j], text) <= suggestion_distance(words[k], text));
    }
}

/// The bytes of each of the words.
pub open spec fn word_bytes(words: Seq<&str>) -> Seq<Seq<u8>> {
    Seq::new(words.len(), |i: int| words[i].spec_bytes())
}

/// Return the entry of `words` closest to `text`, if one is close enough.
pub fn spellcheck<'a>(text: &str, words: &[&'a str]) -> (r: Option<&'a str>)
    ensures
        match r {
            Some(w) => exists|k: int|
                #[trigger] is_suggestion(word_bytes(words@), text.spec_bytes(), k) && w == words@[k],
            None => no_suggestion(word_bytes(words@), text.spec_bytes()),
        },
{
    let mut min_distance: u128 = MAX_VALID_EDIT_DISTANCE as u128 + 1;
    let mut result: Option<&'a str> = None;
    let ghost mut at: int = 0;
    let ghost ws = word_bytes(words@);
    let ghost t = text.spec_bytes();
    let mut i: usize = 0;
    while i < words.len()
        invariant
            ws == word_bytes(words@),
            t == text.spec_bytes(),
            i <= words@.len(),
            forall|j: int| 0 <= j < i ==> min_distance <= suggestion_distance(#[trigger] ws[j], t),
            match result {
                Some(w) => {
                    &&& 0 <= at < i
                    &&& w == words@[at]
                    &&& min_distance == suggestion_distance(ws[at], t)
                    &&& min_distance <= MAX_VALID_EDIT_DISTANCE
                    &&& forall|j: int|
                        0 <= j < at ==> min_distance < suggestion_distance(#[trigger] ws[j], t)
                },
                None => min_distance == MAX_VALID_EDIT_DISTANCE + 1,
            },
        decreases words@.len() - i,
    {
        let w = words[i];
        let d = wide_distance(w, text, true, MAX_VALID_EDIT_DISTANCE);
        assert(ws[i as int] == w.spec_bytes());
        if d < min_distance {
            min_distance = d;
            result = Some(w);
            proof {
                at = i as int;
            }
        }
        i += 1;
    }
    proof {
        if result is Some {
            assert(is_suggestion(ws, t, at));
        }
    }
    result
}

/// Format an mtime (nanoseconds since the Unix epoch) for diagnostics.
pub fn format_mtime(mtime: i64) -> (r: String)
    ensures
        r@ == signed_decimal(mtime as int),
{
    let mut s = String::new();
    push_signed(&mut s, mtime);
    assert(s@ =~= signed_decimal(mtime as int));
    s
}

/// The default number of parallel jobs on a machine with `processors` usable
/// CPUs: a couple more jobs than there are CPUs, so the pipeline stays full
/// while some jobs block on I/O.
pub fn guess_parallelism(processors: usize) -> (r: usize)
    requires
        processors <= usize::MAX - 2,
    ensures
        r == (if processors <= 1 {
            2int
        } else if processors == 2 {
            3
        } else {
            processors + 2
        }),
{
    if processors <= 1 {
        2
    } else if processors == 2 {
        3
    } else {
        processors + 2
    }
}

} // verus!
