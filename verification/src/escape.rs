//! Shell escaping and terminal-output helpers.

use vstd::prelude::*;
use vstd::string::*;

use crate::text::{
    chars_of, push_range, push_repeated, push_repeated_char, string_from_utf8_lossy,
};

verus! {

use crate::text::{
    digit_char, flat_map, hex_digit_value, lemma_scan, lemma_scan_is, repeated, scan, utf8_lossy,
};
use vstd::utf8::{
    encode_utf8, encode_utf8_decode_utf8, encode_utf8_valid_utf8, is_ascii_chars,
    is_ascii_chars_encode_utf8,
};

/// Characters that need no quoting in a POSIX shell command.
pub open spec fn is_shell_safe(c: char) -> bool {
    ||| 'A' <= c <= 'Z'
    ||| 'a' <= c <= 'z'
    ||| '0' <= c <= '9'
    ||| c == '_'
    ||| c == '+'
    ||| c == '-'
    ||| c == '.'
    ||| c == '/'
}

/// Characters that need no quoting on a Windows command line.
pub open spec fn is_win32_safe(c: char) -> bool {
    c != ' ' && c != '"'
}

/// A character inside single quotes: a quote closes them, stands escaped, and
/// opens them again.
pub open spec fn quoted_char(c: char) -> Seq<char> {
    if c == '\'' {
        seq!['\'', '\\', '\'', '\'']
    } else {
        seq![c]
    }
}

/// How the characters of a quoted word are spelled.
pub open spec fn quoting() -> spec_fn(char) -> Seq<char> {
    |c: char| quoted_char(c)
}

/// Whether a word can stand in a shell command as it is.
pub open spec fn all_shell_safe(s: Seq<char>) -> bool {
    forall|i: int| 0 <= i < s.len() ==> is_shell_safe(#[trigger] s[i])
}

/// A word spelled for `/bin/sh`: as it is where every character is safe, in
/// single quotes otherwise.
pub open spec fn shell_word(s: Seq<char>) -> Seq<char> {
    if all_shell_safe(s) {
        s
    } else {
        seq!['\''] + flat_map(s, quoting()) + seq!['\'']
    }
}

fn shell_safe(c: char) -> (r: bool)
    ensures
        r == is_shell_safe(c),
{
    ('A' <= c && c <= 'Z') || ('a' <= c && c <= 'z') || ('0' <= c && c <= '9') || c == '_' || c
        == '+' || c == '-' || c == '.' || c == '/'
}

/// Append `input`, quoted for `/bin/sh` if necessary, to `out`.
pub fn append_shell_escaped(input: &str, out: &mut String)
    ensures
        final(out)@ == old(out)@ + shell_word(input@),
{
    let v = chars_of(input);
    let n: usize = v.len();
    let mut safe: bool = true;
    let mut i: usize = 0;
    while i < n
        invariant
            n == v.len(),
            i <= n,
            safe == (forall|k: int| 0 <= k < i ==> is_shell_safe(#[trigger] v@[k])),
        decreases n - i,
    {
        safe = safe && shell_safe(v[i]);
        i += 1;
    }
    if safe {
        out.append(input);
        return;
    }
    out.push('\'');
    let mut j: usize = 0;
    let ghost lead = old(out)@ + seq!['\''];
    assert(out@ =~= lead + flat_map(v@.take(0), quoting()));
    while j < n
        invariant
            n == v.len(),
            j <= n,
            out@ == lead + flat_map(v@.take(j as int), quoting()),
        decreases n - j,
    {
        let ghost before = out@;
        let c = v[j];
        if c == '\'' {
            out.push('\'');
            out.push('\\');
            out.push('\'');
            out.push('\'');
        } else {
            out.push(c);
        }
        assert(out@ =~= before + quoting()(c));
        assert(v@.take(j + 1).drop_last() =~= v@.take(j as int));
        assert(out@ =~= lead + flat_map(v@.take(j + 1), quoting()));
        j += 1;
    }
    assert(v@.take(n as int) =~= v@);
    out.push('\'');
    assert(out@ =~= old(out)@ + shell_word(input@));
}

/// What a POSIX shell reads a word as, from position `i` on: single quotes
/// hold everything literally, a backslash outside them takes the next
/// character literally.
pub open spec fn shell_reading(s: Seq<char>, i: int, quoted: bool) -> Seq<char>
    decreases s.len() - i,
{
    if 0 <= i < s.len() {
        if s[i] == '\'' {
            shell_reading(s, i + 1, !quoted)
        } else if s[i] == '\\' && !quoted && i + 1 < s.len() {
            seq![s[i + 1]] + shell_reading(s, i + 2, quoted)
        } else {
            seq![s[i]] + shell_reading(s, i + 1, quoted)
        }
    } else {
        Seq::empty()
    }
}

proof fn lemma_reading_safe(s: Seq<char>, i: int)
    requires
        all_shell_safe(s),
        0 <= i <= s.len(),
    ensures
        shell_reading(s, i, false) == s.skip(i),
    decreases s.len() - i,
{
    if i < s.len() {
        lemma_reading_safe(s, i + 1);
        assert(is_shell_safe(s[i]));
        assert(s.skip(i) =~= seq![s[i]] + s.skip(i + 1));
    } else {
        assert(s.skip(i) =~= Seq::<char>::empty());
    }
}

proof fn lemma_flat_map_prefix(s: Seq<char>, k: int)
    requires
        0 <= k < s.len(),
    ensures
        flat_map(s.take(k), quoting()).len() + quoted_char(s[k]).len() == flat_map(
            s.take(k + 1),
            quoting(),
        ).len(),
        flat_map(s.take(k + 1), quoting()) == flat_map(s.take(k), quoting()) + quoted_char(s[k]),
{
    assert(s.take(k + 1).drop_last() =~= s.take(k));
}

proof fn lemma_flat_map_is_prefix(s: Seq<char>, k: int, j: int)
    requires
        0 <= k <= j <= s.len(),
    ensures
        flat_map(s.take(k), quoting()).len() <= flat_map(s.take(j), quoting()).len(),
        flat_map(s.take(j), quoting()).take(flat_map(s.take(k), quoting()).len() as int)
            == flat_map(s.take(k), quoting()),
    decreases j - k,
{
    let a = flat_map(s.take(k), quoting());
    if k < j {
        lemma_flat_map_is_prefix(s, k, j - 1);
        lemma_flat_map_prefix(s, j - 1);
        let b = flat_map(s.take(j - 1), quoting());
        assert((b + quoted_char(s[j - 1])).take(a.len() as int) =~= b.take(a.len() as int));
    } else {
        assert(a.take(a.len() as int) =~= a);
    }
}

proof fn lemma_reading_quoted(s: Seq<char>, k: int)
    requires
        0 <= k <= s.len(),
    ensures
        ({
            let w = seq!['\''] + flat_map(s, quoting()) + seq!['\''];
            let at = 1 + flat_map(s.take(k), quoting()).len();
            shell_reading(w, at as int, true) == s.skip(k)
        }),
    decreases s.len() - k,
{
    let body = flat_map(s, quoting());
    let w = seq!['\''] + body + seq!['\''];
    let f = flat_map(s.take(k), quoting());
    let at = (1 + f.len()) as int;
    assert(s.take(s.len() as int) =~= s);
    if k == s.len() {
        assert(w[at] == '\'');
        assert(shell_reading(w, at + 1, false) =~= Seq::<char>::empty());
        assert(s.skip(k) =~= Seq::<char>::empty());
    } else {
        assert(s.skip(k) =~= seq![s[k]] + s.skip(k + 1));
        lemma_flat_map_prefix(s, k);
        lemma_flat_map_is_prefix(s, k + 1, s.len() as int);
        lemma_reading_quoted(s, k + 1);
        let g = flat_map(s.take(k + 1), quoting());
        let q = quoted_char(s[k]);
        assert forall|x: int| 0 <= x < q.len() implies w[at + x] == #[trigger] q[x] by {
            assert(w[at + x] == body[f.len() + x]);
            assert(body.take(g.len() as int)[f.len() + x] == g[f.len() + x]);
        }
        if s[k] == '\'' {
            assert(w[at] == q[0]);
            assert(w[at + 1] == q[1]);
            assert(w[at + 2] == q[2]);
            assert(w[at + 3] == q[3]);
            reveal_with_fuel(shell_reading, 4);
        } else {
            assert(w[at] == q[0]);
        }
    }
}

/// A shell reads a quoted word back as the text that was quoted.
pub proof fn law_shell_reads_back_what_was_quoted(s: Seq<char>)
    ensures
        shell_reading(shell_word(s), 0, false) == s,
{
    if all_shell_safe(s) {
        lemma_reading_safe(s, 0);
        assert(s.skip(0) =~= s);
    } else {
        lemma_reading_quoted(s, 0);
        assert(s.take(0) =~= Seq::<char>::empty());
        assert(flat_map(s.take(0), quoting()) =~= Seq::<char>::empty());
        let w = shell_word(s);
        assert(w[0] == '\'');
        assert(s.skip(0) =~= s);
    }
}

/// The inside of a double-quoted Windows argument from position `i` on, after
/// `run` backslashes: the backslashes before a quote are doubled and the quote
/// is escaped, and so are those before the closing quote.
pub open spec fn win32_body(s: Seq<char>, i: int, run: nat) -> Seq<char>
    decreases s.len() - i,
{
    if 0 <= i < s.len() {
        if s[i] == '\\' {
            seq!['\\'] + win32_body(s, i + 1, run + 1)
        } else if s[i] == '"' {
            repeated('\\', run as int + 1) + seq!['"'] + win32_body(s, i + 1, 0)
        } else {
            seq![s[i]] + win32_body(s, i + 1, 0)
        }
    } else {
        repeated('\\', run as int)
    }
}

/// A word spelled for the Windows `CommandLineToArgvW` rules.
pub open spec fn win32_word(s: Seq<char>) -> Seq<char> {
    if forall|i: int| 0 <= i < s.len() ==> is_win32_safe(#[trigger] s[i]) {
        s
    } else {
        seq!['"'] + win32_body(s, 0, 0) + seq!['"']
    }
}

/// Append `input`, quoted per the Windows `CommandLineToArgvW` rules if
/// necessary, to `out`.
pub fn append_win32_escaped(input: &str, out: &mut String)
    requires
        input@.len() < usize::MAX,
    ensures
        final(out)@ == old(out)@ + win32_word(input@),
{
    let v = chars_of(input);
    let n: usize = v.len();
    let mut safe: bool = true;
    let mut i: usize = 0;
    while i < n
        invariant
            n == v.len(),
            i <= n,
            safe == (forall|k: int| 0 <= k < i ==> is_win32_safe(#[trigger] v@[k])),
        decreases n - i,
    {
        safe = safe && v[i] != ' ' && v[i] != '"';
        i += 1;
    }
    if safe {
        out.append(input);
        return;
    }
    out.push('"');
    let ghost want = old(out)@ + seq!['"'] + win32_body(v@, 0, 0);
    let mut run: usize = 0;
    let mut j: usize = 0;
    while j < n
        invariant
            n == v.len() < usize::MAX,
            j <= n,
            run <= j,
            out@ + win32_body(v@, j as int, run as nat) == want,
        decreases n - j,
    {
        let ghost before = out@;
        let c = v[j];
        let ghost rest = win32_body(v@, j as int, run as nat);
        if c == '\\' {
            run += 1;
            out.push('\\');
            assert(out@ + win32_body(v@, j + 1, run as nat) =~= before + rest);
        } else if c == '"' {
            push_repeated_char(out, '\\', run + 1);
            out.push('"');
            assert(out@ + win32_body(v@, j + 1, 0) =~= before + rest);
            run = 0;
        } else {
            run = 0;
            out.push(c);
            assert(out@ + win32_body(v@, j + 1, 0) =~= before + rest);
        }
        j += 1;
    }
    push_repeated_char(out, '\\', run);
    out.push('"');
    assert(out@ =~= old(out)@ + win32_word(input@));
}

/// Escape a path for the host platform's command line, which a POSIX shell
/// reads.
pub fn append_escaped_for_host(input: &str, out: &mut String)
    ensures
        final(out)@ == old(out)@ + shell_word(input@),
{
    append_shell_escaped(input, out);
}

/// Escape a path for the host platform's command line.
pub fn escaped_for_host(input: &str) -> (r: String)
    ensures
        r@ == shell_word(input@),
{
    let mut s = String::new();
    append_escaped_for_host(input, &mut s);
    assert(s@ =~= shell_word(input@));
    s
}

/// The ASCII letters.
pub open spec fn is_letter(c: char) -> bool {
    'a' <= c <= 'z' || 'A' <= c <= 'Z'
}

/// Accepts everything but ASCII letters.
pub open spec fn not_letter() -> spec_fn(char) -> bool {
    |c: char| !is_letter(c)
}

/// The text from position `i` on without its control sequences. A control
/// sequence is ESC, `[`, and everything up to the next letter; an ESC before
/// anything else is dropped alone, and an unfinished sequence ends the text.
pub open spec fn without_ansi(s: Seq<char>, i: int) -> Seq<char>
    decreases s.len() - i,
{
    if 0 <= i < s.len() {
        if s[i] != '\u{1b}' {
            seq![s[i]] + without_ansi(s, i + 1)
        } else if i + 1 >= s.len() || s[i + 1] != '[' {
            without_ansi(s, i + 1)
        } else {
            proof {
                lemma_scan(s, i + 2, not_letter());
            }
            let j = scan(s, i + 2, not_letter());
            if j >= s.len() {
                Seq::empty()
            } else {
                without_ansi(s, j + 1)
            }
        }
    } else {
        Seq::empty()
    }
}

/// Remove ANSI escape sequences from `input`.
pub fn strip_ansi_escape_codes(input: &str) -> (r: String)
    ensures
        r@ == without_ansi(input@, 0),
{
    let v = chars_of(input);
    let n: usize = v.len();
    let mut out = String::new();
    let mut i: usize = 0;
    assert(out@ + without_ansi(v@, 0) =~= without_ansi(v@, 0));
    while i < n
        invariant
            n == v.len(),
            v@ == input@,
            i <= n,
            out@ + without_ansi(v@, i as int) == without_ansi(v@, 0),
        decreases n - i,
    {
        let ghost before = out@;
        if v[i] != '\u{1b}' {
            out.push(v[i]);
            assert(out@ + without_ansi(v@, i + 1) =~= before + without_ansi(v@, i as int));
            i += 1;
        } else if n - i < 2 || v[i + 1] != '[' {
            i += 1;
        } else {
            let mut j: usize = i + 2;
            while j < n && !(('a' <= v[j] && v[j] <= 'z') || ('A' <= v[j] && v[j] <= 'Z'))
                invariant
                    n == v.len(),
                    i + 2 <= j <= n,
                    scan(v@, j as int, not_letter()) == scan(v@, i + 2, not_letter()),
                decreases n - j,
            {
                j += 1;
            }
            if j == n {
                assert(without_ansi(v@, i as int) =~= Seq::<char>::empty());
                assert(out@ =~= without_ansi(v@, 0));
                return out;
            }
            i = j + 1;
        }
    }
    assert(out@ =~= without_ansi(v@, 0));
    out
}

/// Accepts every byte but ESC.
pub open spec fn not_escape() -> spec_fn(u8) -> bool {
    |c: u8| c != 27
}

/// Accepts the parameters of a colour sequence: digits and semicolons.
pub open spec fn color_parameter() -> spec_fn(u8) -> bool {
    |c: u8| 48 <= c <= 57 || c == 59
}

/// The colour sequences (ESC, `[`, parameters, `m`) at or after `from`, each as
/// its start and its end. An ESC with fewer than three bytes behind it, or
/// parameters that run into the end, end the search.
pub open spec fn colors_from(b: Seq<u8>, from: int) -> Seq<(int, int)>
    decreases b.len() - from,
{
    if 0 <= from <= b.len() {
        proof {
            lemma_scan(b, from, not_escape());
        }
        let s = scan(b, from, not_escape());
        if s + 4 > b.len() {
            Seq::empty()
        } else if b[s + 1] != 91 {
            colors_from(b, s + 1)
        } else {
            proof {
                lemma_scan(b, s + 2, color_parameter());
            }
            let e = scan(b, s + 2, color_parameter());
            if e >= b.len() {
                Seq::empty()
            } else if b[e] != 109 {
                colors_from(b, s + 3)
            } else {
                seq![(s, e + 1)] + colors_from(b, e + 1)
            }
        }
    } else {
        Seq::empty()
    }
}

/// How many bytes the ranges cover together.
pub open spec fn total_length(r: Seq<(int, int)>) -> int
    decreases r.len(),
{
    if r.len() == 0 {
        0
    } else {
        total_length(r.drop_last()) + (r.last().1 - r.last().0)
    }
}

/// The first range from the `k`-th on that holds position `i`, or the number
/// of ranges when none does.
pub open spec fn range_holding(r: Seq<(int, int)>, i: int, k: int) -> int
    decreases r.len() - k,
{
    if 0 <= k < r.len() && !(r[k].0 <= i < r[k].1) {
        range_holding(r, i, k + 1)
    } else {
        k
    }
}

/// Whether no colour sequence holds position `i`.
pub open spec fn is_visible(r: Seq<(int, int)>, i: int) -> bool {
    range_holding(r, i, 0) >= r.len()
}

/// The position behind which `width` columns have been shown, starting at `i`
/// with `shown` columns, and how many have been shown there.
pub open spec fn behind_column(
    b: Seq<u8>,
    r: Seq<(int, int)>,
    i: int,
    shown: int,
    width: int,
) -> (int, int)
    decreases b.len() - i,
{
    if i >= b.len() || shown == width {
        (i, shown)
    } else {
        behind_column(b, r, i + 1, shown + if is_visible(r, i) { 1int } else { 0int }, width)
    }
}

/// The colour sequences between position `i` and the column `width`, and the
/// position where that column is reached.
pub open spec fn colors_up_to(
    b: Seq<u8>,
    r: Seq<(int, int)>,
    i: int,
    shown: int,
    width: int,
) -> (Seq<u8>, int)
    decreases b.len() - i,
{
    if i >= b.len() || shown == width {
        (Seq::empty(), i)
    } else {
        let k = range_holding(r, i, 0);
        if 0 <= k < r.len() && i < r[k].1 <= b.len() {
            let rest = colors_up_to(b, r, r[k].1, shown, width);
            (b.subrange(r[k].0, r[k].1) + rest.0, rest.1)
        } else {
            colors_up_to(b, r, i + 1, shown + 1, width)
        }
    }
}

/// Text without colours cut down to `width` bytes: a left part, three dots and
/// a right part, or as many dots as there is room for.
pub open spec fn elided_plain(b: Seq<u8>, width: int) -> Seq<u8> {
    if width <= 3 {
        repeated(46u8, width)
    } else {
        let left = (width - 3) / 2;
        let right = width - 3 - left;
        b.take(left) + repeated(46u8, 3) + b.skip(b.len() - right)
    }
}

/// Text with colours cut down to `width` visible bytes. The colour sequences
/// of the part that is cut out stay.
pub open spec fn elided_colored(b: Seq<u8>, r: Seq<(int, int)>, width: int) -> Seq<u8> {
    let visible = b.len() - total_length(r);
    let dots = if width < 3 { width } else { 3 };
    let left = (width - dots) / 2;
    let right = width - dots - left;
    let a = behind_column(b, r, 0, 0, left);
    let gap = colors_up_to(b, r, a.0, a.1, visible - right);
    b.take(a.0) + repeated(46u8, dots) + gap.0 + b.skip(gap.1)
}

/// Text without colours that is cut down is as wide as there is room for.
pub proof fn law_elided_text_fills_the_room(b: Seq<u8>, width: int)
    requires
        0 <= width < b.len(),
    ensures
        elided_plain(b, width).len() == width,
{
}

/// A line shortened to at most `width` visible bytes.
pub open spec fn elided(s: Seq<char>, width: int) -> Seq<char> {
    let b = vstd::utf8::encode_utf8(s);
    let r = colors_from(b, 0);
    if b.len() <= width {
        s
    } else if !b.contains(27u8) {
        utf8_lossy(elided_plain(b, width))
    } else if b.len() - total_length(r) <= width {
        s
    } else {
        utf8_lossy(elided_colored(b, r, width))
    }
}

spec fn int_ranges(v: Seq<(usize, usize)>) -> Seq<(int, int)> {
    Seq::new(v.len(), |i: int| (v[i].0 as int, v[i].1 as int))
}

spec fn ranges_within(r: Seq<(int, int)>, from: int, to: int) -> bool {
    forall|i: int| 0 <= i < r.len() ==> from <= (#[trigger] r[i]).0 < r[i].1 <= to
}

proof fn lemma_total_front(x: (int, int), r: Seq<(int, int)>)
    ensures
        total_length(seq![x] + r) == x.1 - x.0 + total_length(r),
    decreases r.len(),
{
    let w = seq![x] + r;
    if r.len() == 0 {
        assert(w.drop_last() =~= Seq::<(int, int)>::empty());
        assert(w.last() == x);
        assert(total_length(w.drop_last()) == 0);
    } else {
        assert(w.last() == r.last());
        assert(w.drop_last() =~= seq![x] + r.drop_last());
        lemma_total_front(x, r.drop_last());
    }
}

proof fn lemma_colors_bound(b: Seq<u8>, from: int)
    requires
        0 <= from <= b.len(),
    ensures
        ranges_within(colors_from(b, from), from, b.len() as int),
        total_length(colors_from(b, from)) <= b.len() - from,
    decreases b.len() - from,
{
    lemma_scan(b, from, not_escape());
    let s = scan(b, from, not_escape());
    if s + 4 <= b.len() {
        if b[s + 1] != 91 {
            lemma_colors_bound(b, s + 1);
        } else {
            lemma_scan(b, s + 2, color_parameter());
            let e = scan(b, s + 2, color_parameter());
            if e < b.len() {
                if b[e] != 109 {
                    lemma_colors_bound(b, s + 3);
                } else {
                    lemma_colors_bound(b, e + 1);
                    lemma_total_front((s, e + 1), colors_from(b, e + 1));
                    let rest = colors_from(b, e + 1);
                    let w = seq![(s, e + 1)] + rest;
                    assert forall|i: int| 0 <= i < w.len() implies from <= (#[trigger] w[i]).0
                        < w[i].1 <= b.len() by {
                        if i > 0 {
                            assert(w[i] == rest[i - 1]);
                        }
                    }
                }
            }
        }
    }
}

proof fn lemma_total_grows(r: Seq<(int, int)>, i: int, from: int, to: int)
    requires
        0 <= i <= r.len(),
        ranges_within(r, from, to),
    ensures
        0 <= total_length(r.take(i)) <= total_length(r),
    decreases r.len(),
{
    if i < r.len() {
        let f = r.drop_last();
        assert(ranges_within(f, from, to));
        assert(r.take(i) =~= f.take(i));
        lemma_total_grows(f, i, from, to);
        assert(r[r.len() - 1].0 < r[r.len() - 1].1);
    } else {
        assert(r.take(i) =~= r);
        if r.len() > 0 {
            let f = r.drop_last();
            assert(ranges_within(f, from, to));
            lemma_total_grows(f, f.len() as int, from, to);
            assert(f.take(f.len() as int) =~= f);
            assert(r[r.len() - 1].0 < r[r.len() - 1].1);
        }
    }
}

fn color_sequences(b: &[u8]) -> (v: Vec<(usize, usize)>)
    ensures
        int_ranges(v@) == colors_from(b@, 0),
        ranges_within(int_ranges(v@), 0, b@.len() as int),
{
    let n: usize = b.len();
    let mut v: Vec<(usize, usize)> = Vec::new();
    let mut from: usize = 0;
    proof {
        lemma_colors_bound(b@, 0);
        assert(int_ranges(v@) + colors_from(b@, 0) =~= colors_from(b@, 0));
    }
    while from <= n
        invariant
            n == b@.len(),
            from <= n,
            int_ranges(v@) + colors_from(b@, from as int) == colors_from(b@, 0),
            ranges_within(colors_from(b@, 0), 0, b@.len() as int),
        decreases n - from,
    {
        let mut s: usize = from;
        while s < n && b[s] != 27
            invariant
                n == b@.len(),
                from <= s <= n,
                scan(b@, s as int, not_escape()) == scan(b@, from as int, not_escape()),
            decreases n - s,
        {
            s += 1;
        }
        if n - s < 4 {
            assert(int_ranges(v@) =~= colors_from(b@, 0));
            return v;
        }
        if b[s + 1] != 91 {
            from = s + 1;
        } else {
            let mut e: usize = s + 2;
            while e < n && ((48 <= b[e] && b[e] <= 57) || b[e] == 59)
                invariant
                    n == b@.len(),
                    s + 2 <= e <= n,
                    scan(b@, e as int, color_parameter()) == scan(b@, s + 2, color_parameter()),
                decreases n - e,
            {
                e += 1;
            }
            if e >= n {
                assert(int_ranges(v@) =~= colors_from(b@, 0));
                return v;
            }
            if b[e] != 109 {
                from = s + 3;
            } else {
                let ghost before = int_ranges(v@);
                v.push((s, e + 1));
                assert(int_ranges(v@) =~= before.push((s as int, e + 1)));
                assert(int_ranges(v@) + colors_from(b@, e + 1) =~= before + colors_from(
                    b@,
                    from as int,
                ));
                from = e + 1;
            }
        }
    }
    v
}

fn holding(v: &Vec<(usize, usize)>, i: usize) -> (k: usize)
    ensures
        k == range_holding(int_ranges(v@), i as int, 0),
        k <= v.len(),
{
    let mut k: usize = 0;
    while k < v.len() && !(v[k].0 <= i && i < v[k].1)
        invariant
            k <= v.len(),
            range_holding(int_ranges(v@), i as int, k as int) == range_holding(
                int_ranges(v@),
                i as int,
                0,
            ),
        decreases v.len() - k,
    {
        k += 1;
    }
    k
}

/// Shorten `s` to at most `max_width` visible columns by replacing the middle
/// with "...", preserving ANSI colour sequences.
pub fn elide_middle_in_place(s: &mut String, max_width: usize)
    ensures
        final(s)@ == elided(old(s)@, max_width as int),
{
    let ghost text = s@;
    let bytes: Vec<u8> = s.as_str().as_bytes_vec();
    let n: usize = bytes.len();
    if n <= max_width {
        return;
    }
    let mut colored: bool = false;
    let mut x: usize = 0;
    while x < n
        invariant
            n == bytes.len(),
            x <= n,
            colored == (exists|k: int| 0 <= k < x && #[trigger] bytes@[k] == 27),
        decreases n - x,
    {
        if bytes[x] == 27 {
            colored = true;
        }
        x += 1;
    }
    assert(colored == bytes@.contains(27u8));
    let mut out: Vec<u8> = Vec::new();
    if !colored {
        if max_width <= 3 {
            push_repeated(&mut out, 46, max_width);
        } else {
            let left: usize = (max_width - 3) / 2;
            let right: usize = max_width - 3 - left;
            push_range(&mut out, bytes.as_slice(), 0, left);
            push_repeated(&mut out, 46, 3);
            push_range(&mut out, bytes.as_slice(), n - right, n);
        }
        assert(out@ =~= elided_plain(bytes@, max_width as int));
        *s = string_from_utf8_lossy(out.as_slice());
        return;
    }
    let v = color_sequences(bytes.as_slice());
    let ghost r = int_ranges(v@);
    proof {
        lemma_colors_bound(bytes@, 0);
    }
    let mut invisible: usize = 0;
    let mut k: usize = 0;
    while k < v.len()
        invariant
            k <= v.len(),
            r == int_ranges(v@),
            n == bytes@.len(),
            ranges_within(r, 0, n as int),
            total_length(r) <= n,
            invisible == total_length(r.take(k as int)),
        decreases v.len() - k,
    {
        proof {
            lemma_total_grows(r, k + 1, 0, n as int);
            assert(r.take(k + 1).drop_last() =~= r.take(k as int));
            assert(r[k as int].0 < r[k as int].1);
        }
        invisible += v[k].1 - v[k].0;
        k += 1;
    }
    assert(r.take(v.len() as int) =~= r);
    let visible: usize = n - invisible;
    if visible <= max_width {
        return;
    }
    let dots: usize = if max_width < 3 {
        max_width
    } else {
        3
    };
    let left: usize = (max_width - dots) / 2;
    let right: usize = max_width - dots - left;
    let gap_end: usize = visible - right;
    let mut shown: usize = 0;
    let mut i: usize = 0;
    while i < n && shown != left
        invariant
            n == bytes.len(),
            r == int_ranges(v@),
            shown <= i <= n,
            behind_column(bytes@, r, i as int, shown as int, left as int) == behind_column(
                bytes@,
                r,
                0,
                0,
                left as int,
            ),
        decreases n - i,
    {
        if holding(&v, i) >= v.len() {
            shown += 1;
        }
        i += 1;
    }
    let ghost a = i as int;
    push_range(&mut out, bytes.as_slice(), 0, i);
    push_repeated(&mut out, 46, dots);
    let ghost lead = out@;
    let ghost gap = colors_up_to(bytes@, r, a, shown as int, gap_end as int);
    while i < n && shown != gap_end
        invariant
            n == bytes.len(),
            r == int_ranges(v@),
            ranges_within(r, 0, n as int),
            shown <= i <= n,
            ({
                let rest = colors_up_to(bytes@, r, i as int, shown as int, gap_end as int);
                &&& out@ + rest.0 == lead + gap.0
                &&& rest.1 == gap.1
            }),
        decreases n - i,
    {
        let k: usize = holding(&v, i);
        let ghost before = out@;
        let ghost rest = colors_up_to(bytes@, r, i as int, shown as int, gap_end as int);
        if k < v.len() {
            let (x, y) = v[k];
            assert(r[k as int] == (x as int, y as int));
            proof {
                lemma_first_holding(r, i as int, 0);
            }
            push_range(&mut out, bytes.as_slice(), x, y);
            let ghost next = colors_up_to(bytes@, r, y as int, shown as int, gap_end as int);
            assert(out@ + next.0 =~= before + rest.0);
            i = y;
        } else {
            shown += 1;
            i += 1;
        }
    }
    assert(out@ =~= lead + gap.0);
    push_range(&mut out, bytes.as_slice(), i, n);
    assert(out@ =~= elided_colored(bytes@, r, max_width as int));
    *s = string_from_utf8_lossy(out.as_slice());
}

/// The JSON spelling of a character inside a string.
pub open spec fn json_char(c: char) -> Seq<char> {
    let u = c as int;
    if u == 8 {
        seq!['\\', 'b']
    } else if u == 12 {
        seq!['\\', 'f']
    } else if u == 10 {
        seq!['\\', 'n']
    } else if u == 13 {
        seq!['\\', 'r']
    } else if u == 9 {
        seq!['\\', 't']
    } else if c == '\\' {
        seq!['\\', '\\']
    } else if c == '"' {
        seq!['\\', '"']
    } else if u < 0x20 {
        seq!['\\', 'u', '0', '0', digit_char(u / 16), digit_char(u % 16)]
    } else {
        seq![c]
    }
}

/// How the characters of a JSON string are spelled.
pub open spec fn json_spelling() -> spec_fn(char) -> Seq<char> {
    |c: char| json_char(c)
}

/// JSON-encode the inside of a string.
pub fn encode_json_string(input: &str) -> (r: String)
    ensures
        r@ == flat_map(input@, json_spelling()),
{
    let v = chars_of(input);
    let n: usize = v.len();
    let mut out = String::new();
    let mut i: usize = 0;
    assert(out@ =~= flat_map(v@.take(0), json_spelling()));
    while i < n
        invariant
            n == v.len(),
            i <= n,
            out@ == flat_map(v@.take(i as int), json_spelling()),
        decreases n - i,
    {
        let ghost before = out@;
        let c = v[i];
        proof {
            crate::text::lemma_char_number(c);
        }
        let u: u32 = c as u32;
        if u == 8 {
            out.push('\\');
            out.push('b');
        } else if u == 12 {
            out.push('\\');
            out.push('f');
        } else if u == 10 {
            out.push('\\');
            out.push('n');
        } else if u == 13 {
            out.push('\\');
            out.push('r');
        } else if u == 9 {
            out.push('\\');
            out.push('t');
        } else if c == '\\' {
            out.push('\\');
            out.push('\\');
        } else if c == '"' {
            out.push('\\');
            out.push('"');
        } else if u < 0x20 {
            out.push('\\');
            out.push('u');
            out.push('0');
            out.push('0');
            out.push(crate::text::digit((u / 16) as u8));
            out.push(crate::text::digit((u % 16) as u8));
        } else {
            out.push(c);
        }
        assert(out@ =~= before + json_spelling()(c));
        assert(v@.take(i + 1).drop_last() =~= v@.take(i as int));
        i += 1;
    }
    assert(v@.take(n as int) =~= v@);
    out
}

/// What a character behind a backslash stands for in a JSON string.
pub open spec fn json_escaped(c: char) -> char {
    if c == 'b' {
        8u8 as char
    } else if c == 'f' {
        12u8 as char
    } else if c == 'n' {
        '\n'
    } else if c == 'r' {
        '\r'
    } else if c == 't' {
        '\t'
    } else {
        c
    }
}

/// The number that four hexadecimal digits stand for.
pub open spec fn four_digits(t: Seq<char>) -> nat {
    4096 * hex_digit_value(t[0]) + 256 * hex_digit_value(t[1]) + 16 * hex_digit_value(t[2])
        + hex_digit_value(t[3])
}

/// What the inside of a JSON string stands for.
pub open spec fn json_reading(t: Seq<char>) -> Seq<char>
    decreases t.len(),
{
    if t.len() == 0 {
        Seq::empty()
    } else if t[0] != '\\' {
        seq![t[0]] + json_reading(t.skip(1))
    } else if t.len() >= 6 && t[1] == 'u' {
        seq![four_digits(t.skip(2)) as char] + json_reading(t.skip(6))
    } else if t.len() >= 2 {
        seq![json_escaped(t[1])] + json_reading(t.skip(2))
    } else {
        Seq::empty()
    }
}

proof fn lemma_flat_map_front(s: Seq<char>, f: spec_fn(char) -> Seq<char>)
    requires
        s.len() > 0,
    ensures
        flat_map(s, f) == f(s[0]) + flat_map(s.skip(1), f),
    decreases s.len(),
{
    if s.len() == 1 {
        assert(s.drop_last() =~= Seq::empty());
        assert(s.skip(1) =~= Seq::empty());
        assert(flat_map(s.drop_last(), f) =~= Seq::empty());
        assert(flat_map(s, f) =~= f(s[0]) + flat_map(s.skip(1), f));
    } else {
        lemma_flat_map_front(s.drop_last(), f);
        assert(s.skip(1).drop_last() =~= s.drop_last().skip(1));
        assert(s.skip(1).last() == s.last());
        assert(flat_map(s, f) =~= f(s[0]) + flat_map(s.skip(1), f));
    }
}

proof fn lemma_json_char_reads_back(c: char, rest: Seq<char>)
    ensures
        json_reading(json_char(c) + rest) == seq![c] + json_reading(rest),
{
    let t = json_char(c) + rest;
    let u = c as int;
    crate::text::lemma_char_number(c);
    if json_char(c).len() == 1 {
        assert(t.skip(1) =~= rest);
    } else if json_char(c).len() == 2 {
        assert(t.skip(2) =~= rest);
        assert(t[1] != 'u');
    } else {
        assert(t.skip(6) =~= rest);
        let d = t.skip(2);
        assert(d[0] == '0' && d[1] == '0' && d[2] == digit_char(u / 16) && d[3] == digit_char(
            u % 16,
        ));
        assert(hex_digit_value(digit_char(u / 16)) == u / 16);
        assert(hex_digit_value(digit_char(u % 16)) == u % 16);
        assert(four_digits(d) == u);
    }
}

/// A JSON reader reads back what was written.
pub proof fn law_json_reads_back(s: Seq<char>)
    ensures
        json_reading(flat_map(s, json_spelling())) == s,
    decreases s.len(),
{
    if s.len() > 0 {
        lemma_flat_map_front(s, json_spelling());
        law_json_reads_back(s.skip(1));
        lemma_json_char_reads_back(s[0], flat_map(s.skip(1), json_spelling()));
        assert(seq![s[0]] + s.skip(1) =~= s);
    } else {
        assert(flat_map(s, json_spelling()) =~= Seq::empty());
        assert(s =~= Seq::empty());
    }
}

/// What a word of a Windows command line stands for, behind `run` backslashes
/// that have been read: backslashes stand for themselves unless a double quote
/// follows, before which each pair of them stands for one; a quote behind an odd
/// number of them stands for itself, and another one starts or ends a quotation
/// and stands for nothing.
pub open spec fn win32_reading(t: Seq<char>, run: nat) -> Seq<char>
    decreases t.len(),
{
    if t.len() == 0 {
        repeated('\\', run as int)
    } else if t[0] == '\\' {
        win32_reading(t.skip(1), run + 1)
    } else if t[0] == '"' {
        repeated('\\', run as int / 2) + (if run % 2 == 1 {
            seq!['"']
        } else {
            Seq::empty()
        }) + win32_reading(t.skip(1), 0)
    } else {
        repeated('\\', run as int) + seq![t[0]] + win32_reading(t.skip(1), 0)
    }
}

proof fn lemma_backslashes_read(k: nat, rest: Seq<char>, run: nat)
    ensures
        win32_reading(repeated('\\', k as int) + rest, run) == win32_reading(rest, run + k),
    decreases k,
{
    let t = repeated('\\', k as int) + rest;
    if k > 0 {
        assert(t.skip(1) =~= repeated('\\', k - 1) + rest);
        lemma_backslashes_read((k - 1) as nat, rest, run + 1);
    } else {
        assert(t =~= rest);
    }
}

proof fn lemma_body_read(s: Seq<char>, i: int, run: nat)
    requires
        0 <= i <= s.len(),
    ensures
        win32_reading(win32_body(s, i, run) + seq!['"'], run) == repeated('\\', run as int) + s.skip(i),
    decreases s.len() - i,
{
    let end = seq!['"'];
    let t = win32_body(s, i, run) + end;
    if i == s.len() {
        lemma_backslashes_read(run, end, run);
        assert(end.skip(1) =~= Seq::empty());
        assert(win32_reading(end.skip(1), 0) =~= Seq::empty());
        assert((run + run) % 2 == 0 && (run + run) as int / 2 == run);
        assert(win32_reading(end, run + run) =~= repeated('\\', run as int));
        assert(s.skip(i) =~= Seq::empty());
        assert(repeated('\\', run as int) + s.skip(i) =~= repeated('\\', run as int));
    } else if s[i] == '\\' {
        lemma_body_read(s, i + 1, run + 1);
        assert(t.skip(1) =~= win32_body(s, i + 1, run + 1) + end);
        assert(repeated('\\', run as int + 1) + s.skip(i + 1) =~= repeated('\\', run as int) + s.skip(i));
    } else if s[i] == '"' {
        let rest = seq!['"'] + win32_body(s, i + 1, 0) + end;
        assert(t =~= repeated('\\', run as int + 1) + rest);
        lemma_backslashes_read(run + 1, rest, run);
        lemma_body_read(s, i + 1, 0);
        assert(rest.skip(1) =~= win32_body(s, i + 1, 0) + end);
        let n: nat = run + (run + 1);
        assert(n % 2 == 1 && n as int / 2 == run);
        assert(repeated('\\', 0) + s.skip(i + 1) =~= s.skip(i + 1));
        assert(repeated('\\', run as int) + seq!['"'] + s.skip(i + 1) =~= repeated('\\', run as int)
            + s.skip(i));
    } else {
        lemma_body_read(s, i + 1, 0);
        assert(t.skip(1) =~= win32_body(s, i + 1, 0) + end);
        assert(repeated('\\', 0) + s.skip(i + 1) =~= s.skip(i + 1));
        assert(repeated('\\', run as int) + seq![s[i]] + s.skip(i + 1) =~= repeated(
            '\\',
            run as int,
        ) + s.skip(i));
    }
}

proof fn lemma_plain_read(s: Seq<char>, run: nat)
    requires
        forall|i: int| 0 <= i < s.len() ==> (#[trigger] s[i]) != '"',
    ensures
        win32_reading(s, run) == repeated('\\', run as int) + s,
    decreases s.len(),
{
    if s.len() > 0 {
        let rest = s.skip(1);
        assert forall|i: int| 0 <= i < rest.len() implies (#[trigger] rest[i]) != '"' by {
            assert(rest[i] == s[i + 1]);
        }
        if s[0] == '\\' {
            lemma_plain_read(rest, run + 1);
            assert(repeated('\\', run as int + 1) + rest =~= repeated('\\', run as int) + s);
        } else {
            lemma_plain_read(rest, 0);
            assert(repeated('\\', 0) + rest =~= rest);
            assert(repeated('\\', run as int) + seq![s[0]] + rest =~= repeated('\\', run as int) + s);
        }
    } else {
        assert(repeated('\\', run as int) + s =~= repeated('\\', run as int));
    }
}

/// A Windows program reads back the word that was quoted for it.
pub proof fn law_windows_reads_back_what_was_quoted(s: Seq<char>)
    ensures
        win32_reading(win32_word(s), 0) == s,
{
    if forall|i: int| 0 <= i < s.len() ==> is_win32_safe(#[trigger] s[i]) {
        assert forall|i: int| 0 <= i < s.len() implies (#[trigger] s[i]) != '"' by {
            assert(is_win32_safe(s[i]));
        }
        lemma_plain_read(s, 0);
        assert(repeated('\\', 0) + s =~= s);
    } else {
        let t = win32_word(s);
        assert(t.skip(1) =~= win32_body(s, 0, 0) + seq!['"']);
        lemma_body_read(s, 0, 0);
        assert(s.skip(0) =~= s);
        assert(repeated('\\', 0) + s.skip(0) =~= s);
        assert(repeated('\\', 0) + Seq::<char>::empty() + s =~= s);
    }
}

/// Whether a complete colour sequence stands from `i` up to `e`: ESC, `[`, one or
/// more parameters, and `m`.
pub open spec fn is_color(b: Seq<u8>, i: int, e: int) -> bool {
    &&& 0 <= i
    &&& i + 4 <= e <= b.len()
    &&& b[i] == 27
    &&& b[i + 1] == 91
    &&& b[e - 1] == 109
    &&& forall|k: int| i + 2 <= k < e - 1 ==> color_parameter()(#[trigger] b[k])
}

/// Where the colour sequence at `i` ends, if there is one.
pub open spec fn color_end(b: Seq<u8>, i: int) -> int {
    scan(b, i + 2, color_parameter()) + 1
}

/// Whether every ESC starts a complete colour sequence.
pub open spec fn well_colored(b: Seq<u8>) -> bool {
    forall|i: int|
        0 <= i < b.len() && #[trigger] b[i] == 27 ==> is_color(b, i, color_end(b, i))
}

/// What is seen of the bytes from `i` on: all but the colour sequences.
pub open spec fn visible_from(b: Seq<u8>, i: int) -> Seq<u8>
    decreases b.len() - i,
{
    if 0 <= i < b.len() {
        if b[i] == 27 && is_color(b, i, color_end(b, i)) {
            visible_from(b, color_end(b, i))
        } else {
            seq![b[i]] + visible_from(b, i + 1)
        }
    } else {
        Seq::empty()
    }
}

/// The colour sequences from `i` on.
pub open spec fn colors_of(b: Seq<u8>, i: int) -> Seq<Seq<u8>>
    decreases b.len() - i,
{
    if 0 <= i < b.len() {
        if b[i] == 27 && is_color(b, i, color_end(b, i)) {
            seq![b.subrange(i, color_end(b, i))] + colors_of(b, color_end(b, i))
        } else {
            colors_of(b, i + 1)
        }
    } else {
        Seq::empty()
    }
}

spec fn is_boundary(b: Seq<u8>, i: int) -> bool {
    &&& 0 <= i <= b.len()
    &&& forall|j: int| 0 <= j < i && #[trigger] b[j] == 27 ==> color_end(b, j) <= i
}

proof fn lemma_color_end(b: Seq<u8>, i: int, e: int)
    requires
        is_color(b, i, e),
    ensures
        color_end(b, i) == e,
        forall|k: int| i < k < e ==> #[trigger] b[k] != 27,
{
    lemma_scan_is(b, i + 2, color_parameter(), e - 1);
    assert forall|k: int| i < k < e implies #[trigger] b[k] != 27 by {
        if i + 2 <= k < e - 1 {
            assert(color_parameter()(b[k]));
        }
    }
}

proof fn lemma_color_moved(b: Seq<u8>, c: Seq<u8>, i: int, e: int, d: int)
    requires
        is_color(b, i, e),
        0 <= i + d,
        e + d <= c.len(),
        forall|k: int| i <= k < e ==> #[trigger] b[k] == c[k + d],
    ensures
        is_color(c, i + d, e + d),
        color_end(c, i + d) == e + d,
{
    assert(b[i] == c[i + d]);
    assert(b[i + 1] == c[i + 1 + d]);
    assert(b[e - 1] == c[e - 1 + d]);
    assert forall|k: int| i + d + 2 <= k < e + d - 1 implies color_parameter()(#[trigger] c[k]) by {
        assert(b[k - d] == c[k - d + d]);
    }
    lemma_color_end(c, i + d, e + d);
}

proof fn lemma_boundary_step(b: Seq<u8>, i: int)
    requires
        well_colored(b),
        is_boundary(b, i),
        i < b.len(),
    ensures
        b[i] != 27 ==> is_boundary(b, i + 1),
        b[i] == 27 ==> is_color(b, i, color_end(b, i)) && is_boundary(b, color_end(b, i)),
{
    if b[i] == 27 {
        let e = color_end(b, i);
        lemma_color_end(b, i, e);
        assert forall|j: int| 0 <= j < e && #[trigger] b[j] == 27 implies color_end(b, j) <= e by {
            if j < i {
                assert(color_end(b, j) <= i);
            }
        }
    } else {
        assert forall|j: int| 0 <= j < i + 1 && #[trigger] b[j] == 27 implies color_end(b, j) <= i
            + 1 by {
            assert(color_end(b, j) <= i);
        }
    }
}

proof fn lemma_visible_front(b: Seq<u8>, i: int, j: int)
    requires
        well_colored(b),
        is_boundary(b, i),
        is_boundary(b, j),
        i <= j,
    ensures
        visible_from(b, i) == visible_from(b.take(j), i) + visible_from(b, j),
        colors_of(b, i) == colors_of(b.take(j), i) + colors_of(b, j),
    decreases j - i,
{
    let f = b.take(j);
    if i == j {
        assert(visible_from(b, i) =~= visible_from(f, i) + visible_from(b, j));
        assert(colors_of(b, i) =~= colors_of(f, i) + colors_of(b, j));
    } else {
        lemma_boundary_step(b, i);
        if b[i] == 27 {
            let e = color_end(b, i);
            assert(e <= j);
            lemma_color_moved(b, f, i, e, 0);
            lemma_visible_front(b, e, j);
            assert(f.subrange(i, e) =~= b.subrange(i, e));
            assert(colors_of(b, i) =~= colors_of(f, i) + colors_of(b, j));
        } else {
            lemma_visible_front(b, i + 1, j);
            assert(f[i] == b[i]);
            assert(visible_from(b, i) =~= visible_from(f, i) + visible_from(b, j));
        }
    }
}

proof fn lemma_front_colored(b: Seq<u8>, j: int)
    requires
        well_colored(b),
        is_boundary(b, j),
    ensures
        well_colored(b.take(j)),
{
    let f = b.take(j);
    assert forall|i: int| 0 <= i < f.len() && #[trigger] f[i] == 27 implies is_color(
        f,
        i,
        color_end(f, i),
    ) by {
        assert(b[i] == 27);
        lemma_color_moved(b, f, i, color_end(b, i), 0);
    }
}

proof fn lemma_visible_back(b: Seq<u8>, j: int, i: int)
    requires
        well_colored(b),
        0 <= j <= b.len(),
        0 <= i <= b.len() - j,
    ensures
        visible_from(b.skip(j), i) == visible_from(b, i + j),
        colors_of(b.skip(j), i) == colors_of(b, i + j),
    decreases b.len() - j - i,
{
    let f = b.skip(j);
    if i < f.len() {
        assert(f[i] == b[i + j]);
        if b[i + j] == 27 {
            let e = color_end(b, i + j);
            lemma_color_moved(b, f, i + j, e, -j);
            lemma_visible_back(b, j, e - j);
            assert(f.subrange(i, e - j) =~= b.subrange(i + j, e));
        } else {
            lemma_visible_back(b, j, i + 1);
        }
    }
}

proof fn lemma_back_colored(b: Seq<u8>, j: int)
    requires
        well_colored(b),
        0 <= j <= b.len(),
    ensures
        well_colored(b.skip(j)),
{
    let f = b.skip(j);
    assert forall|i: int| 0 <= i < f.len() && #[trigger] f[i] == 27 implies is_color(
        f,
        i,
        color_end(f, i),
    ) by {
        assert(b[i + j] == 27);
        lemma_color_moved(b, f, i + j, color_end(b, i + j), -j);
    }
}

proof fn lemma_joined(x: Seq<u8>, y: Seq<u8>)
    requires
        well_colored(x),
        well_colored(y),
    ensures
        well_colored(x + y),
        visible_from(x + y, 0) == visible_from(x, 0) + visible_from(y, 0),
        colors_of(x + y, 0) == colors_of(x, 0) + colors_of(y, 0),
{
    let b = x + y;
    let n = x.len() as int;
    assert forall|i: int| 0 <= i < b.len() && #[trigger] b[i] == 27 implies is_color(
        b,
        i,
        color_end(b, i),
    ) && (i < n ==> color_end(b, i) <= n) by {
        if i < n {
            assert(x[i] == 27);
            lemma_color_moved(x, b, i, color_end(x, i), 0);
        } else {
            assert(y[i - n] == 27);
            lemma_color_moved(y, b, i - n, color_end(y, i - n), n);
        }
    }
    assert(is_boundary(b, n));
    lemma_visible_front(b, 0, n);
    assert(b.take(n) =~= x);
    lemma_visible_back(b, n, 0);
    assert(b.skip(n) =~= y);
}

proof fn lemma_colorless(x: Seq<u8>, i: int)
    requires
        forall|k: int| 0 <= k < x.len() ==> #[trigger] x[k] != 27,
        0 <= i <= x.len(),
    ensures
        well_colored(x),
        visible_from(x, i) == x.skip(i),
        colors_of(x, i) == Seq::<Seq<u8>>::empty(),
    decreases x.len() - i,
{
    if i < x.len() {
        lemma_colorless(x, i + 1);
        assert(x.skip(i) =~= seq![x[i]] + x.skip(i + 1));
    } else {
        assert(x.skip(i) =~= Seq::empty());
    }
}

proof fn lemma_one_color(b: Seq<u8>, i: int, e: int)
    requires
        is_color(b, i, e),
    ensures
        well_colored(b.subrange(i, e)),
        visible_from(b.subrange(i, e), 0) == Seq::<u8>::empty(),
        colors_of(b.subrange(i, e), 0) == seq![b.subrange(i, e)],
{
    let c = b.subrange(i, e);
    lemma_color_end(b, i, e);
    lemma_color_moved(b, c, i, e, -i);
    assert forall|k: int| 0 <= k < c.len() && #[trigger] c[k] == 27 implies is_color(
        c,
        k,
        color_end(c, k),
    ) by {
        assert(b[i + k] == 27);
        assert(k == 0);
    }
    assert(c.subrange(0, e - i) =~= c);
    assert(is_color(c, 0, e - i) && color_end(c, 0) == e - i);
    assert(visible_from(c, e - i) =~= Seq::empty());
    assert(colors_of(c, e - i) =~= Seq::empty());
    assert(colors_of(c, 0) =~= seq![c]);
}

proof fn lemma_color_ranges(b: Seq<u8>, from: int)
    requires
        well_colored(b),
        0 <= from <= b.len(),
    ensures
        ({
            let r = colors_from(b, from);
            &&& forall|k: int|
                0 <= k < r.len() ==> from <= (#[trigger] r[k]).0 < b.len() && b[r[k].0] == 27
                    && r[k].1 == color_end(b, r[k].0)
            &&& forall|i: int|
                from <= i < b.len() && #[trigger] b[i] == 27 ==> r.contains((i, color_end(b, i)))
            &&& total_length(r) == b.len() - from - visible_from(b, from).len()
        }),
    decreases b.len() - from,
{
    let r = colors_from(b, from);
    lemma_scan(b, from, not_escape());
    if from < b.len() {
        if b[from] != 27 {
            lemma_color_ranges(b, from + 1);
            assert(r == colors_from(b, from + 1));
        } else {
            let e = color_end(b, from);
            lemma_color_end(b, from, e);
            assert(scan(b, from, not_escape()) == from);
            lemma_scan(b, from + 2, color_parameter());
            lemma_color_ranges(b, e);
            let rest = colors_from(b, e);
            assert(r == seq![(from, e)] + rest);
            lemma_total_front((from, e), rest);
            assert forall|k: int| 0 <= k < r.len() implies from <= (#[trigger] r[k]).0 < b.len()
                && b[r[k].0] == 27 && r[k].1 == color_end(b, r[k].0) by {
                if k > 0 {
                    assert(r[k] == rest[k - 1]);
                }
            }
            assert forall|i: int| from <= i < b.len() && #[trigger] b[i] == 27 implies r.contains(
                (i, color_end(b, i)),
            ) by {
                if i == from {
                    assert(r[0] == (i, color_end(b, i)));
                } else {
                    assert(i >= e);
                    assert(rest.contains((i, color_end(b, i))));
                    let k = choose|k: int| 0 <= k < rest.len() && rest[k] == (i, color_end(b, i));
                    assert(r[k + 1] == rest[k]);
                }
            }
        }
    }
}

proof fn lemma_first_holding(r: Seq<(int, int)>, i: int, k: int)
    requires
        0 <= k <= r.len(),
    ensures
        ({
            let h = range_holding(r, i, k);
            &&& k <= h <= r.len()
            &&& h < r.len() ==> r[h].0 <= i < r[h].1
            &&& forall|m: int| k <= m < h ==> !((#[trigger] r[m]).0 <= i < r[m].1)
        }),
    decreases r.len() - k,
{
    if k < r.len() && !(r[k].0 <= i < r[k].1) {
        lemma_first_holding(r, i, k + 1);
    }
}

proof fn lemma_plain_seen(b: Seq<u8>, i: int)
    requires
        well_colored(b),
        is_boundary(b, i),
        i < b.len(),
        b[i] != 27,
    ensures
        range_holding(colors_from(b, 0), i, 0) >= colors_from(b, 0).len(),
{
    let r = colors_from(b, 0);
    lemma_color_ranges(b, 0);
    lemma_first_holding(r, i, 0);
    let k = range_holding(r, i, 0);
    if k < r.len() {
        let j = r[k].0;
        assert(b[j] == 27);
        assert(j < i);
        assert(color_end(b, j) <= i);
    }
}

proof fn lemma_color_unseen(b: Seq<u8>, i: int, p: int)
    requires
        well_colored(b),
        is_boundary(b, i),
        i < b.len(),
        b[i] == 27,
        i <= p < color_end(b, i),
    ensures
        ({
            let r = colors_from(b, 0);
            let k = range_holding(r, p, 0);
            &&& 0 <= k < r.len()
            &&& !is_visible(r, p)
            &&& p == i ==> r[k] == (i, color_end(b, i))
        }),
{
    let r = colors_from(b, 0);
    let e = color_end(b, i);
    lemma_color_ranges(b, 0);
    lemma_first_holding(r, p, 0);
    assert(r.contains((i, e)));
    let m = choose|m: int| 0 <= m < r.len() && r[m] == (i, e);
    assert(r[m].0 <= p < r[m].1);
    let k = range_holding(r, p, 0);
    assert(k <= m);
    let j = r[k].0;
    assert(b[j] == 27);
    if p == i && j < i {
        assert(color_end(b, j) <= i);
    }
}

proof fn lemma_behind_color(b: Seq<u8>, r: Seq<(int, int)>, p: int, e: int, shown: int, width: int)
    requires
        0 <= p <= e <= b.len(),
        shown != width,
        forall|q: int| p <= q < e ==> !#[trigger] is_visible(r, q),
    ensures
        behind_column(b, r, p, shown, width) == behind_column(b, r, e, shown, width),
    decreases e - p,
{
    if p < e {
        assert(!is_visible(r, p));
        lemma_behind_color(b, r, p + 1, e, shown, width);
    }
}

proof fn lemma_behind(b: Seq<u8>, i: int, shown: int, width: int)
    requires
        well_colored(b),
        is_boundary(b, i),
        shown <= width,
        width - shown <= visible_from(b, i).len(),
    ensures
        ({
            let (j, n) = behind_column(b, colors_from(b, 0), i, shown, width);
            &&& i <= j
            &&& is_boundary(b, j)
            &&& n == width
            &&& visible_from(b, j) == visible_from(b, i).skip(width - shown)
        }),
    decreases b.len() - i,
{
    let r = colors_from(b, 0);
    let v = visible_from(b, i);
    if shown == width {
        assert(v.skip(0) =~= v);
    } else {
        assert(i < b.len());
        lemma_boundary_step(b, i);
        if b[i] == 27 {
            let e = color_end(b, i);
            assert forall|p: int| i <= p < e implies !#[trigger] is_visible(r, p) by {
                lemma_color_unseen(b, i, p);
            }
            lemma_behind_color(b, r, i, e, shown, width);
            lemma_behind(b, e, shown, width);
        } else {
            lemma_plain_seen(b, i);
            lemma_behind(b, i + 1, shown + 1, width);
            let w = visible_from(b, i + 1);
            assert(v == seq![b[i]] + w);
            assert(v.skip(width - shown) =~= w.skip(width - shown - 1));
        }
    }
}

proof fn lemma_gap(b: Seq<u8>, i: int, shown: int, width: int)
    requires
        well_colored(b),
        is_boundary(b, i),
        shown <= width,
        width - shown <= visible_from(b, i).len(),
    ensures
        ({
            let (g, j) = colors_up_to(b, colors_from(b, 0), i, shown, width);
            &&& i <= j
            &&& is_boundary(b, j)
            &&& visible_from(b, j) == visible_from(b, i).skip(width - shown)
            &&& well_colored(g)
            &&& visible_from(g, 0) == Seq::<u8>::empty()
            &&& colors_of(b, i) == colors_of(g, 0) + colors_of(b, j)
        }),
    decreases b.len() - i,
{
    let r = colors_from(b, 0);
    let v = visible_from(b, i);
    let (g, j) = colors_up_to(b, r, i, shown, width);
    if shown == width {
        assert(v.skip(0) =~= v);
        assert(colors_of(b, i) =~= colors_of(g, 0) + colors_of(b, j));
    } else {
        assert(i < b.len());
        lemma_boundary_step(b, i);
        if b[i] == 27 {
            let e = color_end(b, i);
            lemma_color_unseen(b, i, i);
            let c = b.subrange(i, e);
            lemma_gap(b, e, shown, width);
            let rest = colors_up_to(b, r, e, shown, width);
            assert(g == c + rest.0);
            lemma_one_color(b, i, e);
            lemma_joined(c, rest.0);
            assert(visible_from(g, 0) =~= Seq::empty());
            assert(colors_of(b, i) =~= colors_of(g, 0) + colors_of(b, j));
        } else {
            lemma_plain_seen(b, i);
            lemma_gap(b, i + 1, shown + 1, width);
            let w = visible_from(b, i + 1);
            assert(v == seq![b[i]] + w);
            assert(v.skip(width - shown) =~= w.skip(width - shown - 1));
        }
    }
}

proof fn lemma_four_joined(w: Seq<u8>, x: Seq<u8>, y: Seq<u8>, z: Seq<u8>)
    requires
        well_colored(w),
        well_colored(x),
        well_colored(y),
        well_colored(z),
    ensures
        well_colored(w + x + y + z),
        visible_from(w + x + y + z, 0) == visible_from(w, 0) + visible_from(x, 0) + visible_from(
            y,
            0,
        ) + visible_from(z, 0),
        colors_of(w + x + y + z, 0) == colors_of(w, 0) + colors_of(x, 0) + colors_of(y, 0)
            + colors_of(z, 0),
{
    lemma_joined(w, x);
    lemma_joined(w + x, y);
    lemma_joined(w + x + y, z);
}

proof fn lemma_elided_parts(b: Seq<u8>, left: int, end: int)
    requires
        well_colored(b),
        0 <= left <= end <= visible_from(b, 0).len(),
    ensures
        ({
            let r = colors_from(b, 0);
            let v = visible_from(b, 0);
            let a = behind_column(b, r, 0, 0, left);
            let gap = colors_up_to(b, r, a.0, a.1, end);
            &&& 0 <= a.0 <= gap.1 <= b.len()
            &&& well_colored(b.take(a.0))
            &&& well_colored(gap.0)
            &&& well_colored(b.skip(gap.1))
            &&& visible_from(b.take(a.0), 0) == v.take(left)
            &&& visible_from(gap.0, 0) == Seq::<u8>::empty()
            &&& visible_from(b.skip(gap.1), 0) == v.skip(end)
            &&& colors_of(b.take(a.0), 0) + colors_of(gap.0, 0) + colors_of(b.skip(gap.1), 0)
                == colors_of(b, 0)
        }),
{
    let r = colors_from(b, 0);
    let v = visible_from(b, 0);
    lemma_behind(b, 0, 0, left);
    let (a, shown) = behind_column(b, r, 0, 0, left);
    lemma_gap(b, a, left, end);
    let (g, j) = colors_up_to(b, r, a, left, end);
    lemma_visible_front(b, 0, a);
    lemma_front_colored(b, a);
    lemma_visible_back(b, j, 0);
    lemma_back_colored(b, j);
    let front = visible_from(b.take(a), 0);
    assert(v == front + v.skip(left));
    assert(front.len() == left);
    assert(front =~= v.take(left));
    assert(v.skip(left).skip(end - left) =~= v.skip(end));
    assert(colors_of(b.take(a), 0) + colors_of(g, 0) + colors_of(b.skip(j), 0) =~= colors_of(b, 0));
}

/// Cutting down coloured text cuts down what is seen of it as if there were no
/// colours, and keeps all colour sequences in their order.
pub proof fn law_elided_colors_stay(b: Seq<u8>, width: int)
    requires
        well_colored(b),
        0 <= width < visible_from(b, 0).len(),
    ensures
        ({
            let o = elided_colored(b, colors_from(b, 0), width);
            &&& well_colored(o)
            &&& visible_from(o, 0) == elided_plain(visible_from(b, 0), width)
            &&& visible_from(o, 0).len() == width
            &&& colors_of(o, 0) == colors_of(b, 0)
        }),
{
    let r = colors_from(b, 0);
    let v = visible_from(b, 0);
    let n = v.len() as int;
    lemma_color_ranges(b, 0);
    let dots = if width < 3 {
        width
    } else {
        3
    };
    let left = (width - dots) / 2;
    let right = width - dots - left;
    lemma_elided_parts(b, left, n - right);
    let a = behind_column(b, r, 0, 0, left);
    let gap = colors_up_to(b, r, a.0, a.1, n - right);
    let points = repeated(46u8, dots);
    lemma_colorless(points, 0);
    assert(points.skip(0) =~= points);
    lemma_four_joined(b.take(a.0), points, gap.0, b.skip(gap.1));
    let o = elided_colored(b, r, width);
    assert(o == b.take(a.0) + points + gap.0 + b.skip(gap.1));
    assert(visible_from(o, 0) =~= v.take(left) + points + v.skip(n - right));
    assert(visible_from(o, 0) =~= elided_plain(v, width));
    assert(colors_of(o, 0) =~= colors_of(b, 0));
}

/// Bytes as characters.
pub open spec fn byte_text(b: Seq<u8>) -> Seq<char> {
    Seq::new(b.len(), |i: int| b[i] as char)
}

proof fn lemma_byte_text(b: Seq<u8>)
    requires
        forall|k: int| 0 <= k < b.len() ==> #[trigger] b[k] < 128,
    ensures
        utf8_lossy(b) == byte_text(b),
        is_ascii_chars(byte_text(b)),
        encode_utf8(byte_text(b)) == b,
{
    let t = byte_text(b);
    assert forall|i: int| 0 <= i < t.len() implies '\0' <= #[trigger] t[i] <= '\u{7f}' && t[i] as u8
        == b[i] by {
        assert(b[i] < 128);
    }
    is_ascii_chars_encode_utf8(t);
    assert(encode_utf8(t) =~= b);
    encode_utf8_valid_utf8(t);
    encode_utf8_decode_utf8(t);
}

proof fn lemma_text_bytes(s: Seq<char>)
    requires
        is_ascii_chars(s),
    ensures
        byte_text(encode_utf8(s)) == s,
        forall|k: int| 0 <= k < encode_utf8(s).len() ==> #[trigger] encode_utf8(s)[k] < 128,
{
    is_ascii_chars_encode_utf8(s);
    let b = encode_utf8(s);
    assert forall|k: int| 0 <= k < b.len() implies #[trigger] b[k] < 128 && b[k] as char == s[k] by {
        assert('\0' <= s[k] <= '\u{7f}');
        assert(s[k] as u8 == b[k]);
    }
    assert(byte_text(b) =~= s);
}

proof fn lemma_stripped(b: Seq<u8>, i: int)
    requires
        well_colored(b),
        0 <= i <= b.len(),
    ensures
        without_ansi(byte_text(b), i) == byte_text(visible_from(b, i)),
    decreases b.len() - i,
{
    let t = byte_text(b);
    if i < b.len() {
        assert(t[i] == b[i] as char);
        if b[i] == 27 {
            let e = color_end(b, i);
            lemma_color_end(b, i, e);
            assert(t[i + 1] == '[');
            assert forall|k: int| i + 2 <= k < e - 1 implies not_letter()(#[trigger] t[k]) by {
                assert(color_parameter()(b[k]));
            }
            assert(t[e - 1] == 'm');
            lemma_scan_is(t, i + 2, not_letter(), e - 1);
            lemma_stripped(b, e);
        } else {
            lemma_stripped(b, i + 1);
            assert(byte_text(visible_from(b, i)) =~= seq![t[i]] + byte_text(
                visible_from(b, i + 1),
            ));
        }
    } else {
        assert(byte_text(visible_from(b, i)) =~= Seq::empty());
    }
}

proof fn lemma_visible_bytes(b: Seq<u8>, i: int, k: int)
    requires
        0 <= k < visible_from(b, i).len(),
        0 <= i,
    ensures
        b.contains(visible_from(b, i)[k]),
        well_colored(b) ==> visible_from(b, i)[k] != 27,
    decreases b.len() - i,
{
    if i < b.len() {
        if b[i] == 27 && is_color(b, i, color_end(b, i)) {
            lemma_visible_bytes(b, color_end(b, i), k);
        } else if k > 0 {
            lemma_visible_bytes(b, i + 1, k - 1);
            assert(visible_from(b, i)[k] == visible_from(b, i + 1)[k - 1]);
        } else {
            assert(b[i] == visible_from(b, i)[k]);
        }
    }
}

proof fn lemma_gap_bytes(b: Seq<u8>, r: Seq<(int, int)>, i: int, shown: int, width: int, k: int)
    requires
        0 <= i,
        ranges_within(r, 0, b.len() as int),
        0 <= k < colors_up_to(b, r, i, shown, width).0.len(),
    ensures
        b.contains(colors_up_to(b, r, i, shown, width).0[k]),
    decreases b.len() - i,
{
    if i < b.len() && shown != width {
        let h = range_holding(r, i, 0);
        if 0 <= h < r.len() && i < r[h].1 <= b.len() {
            let c = b.subrange(r[h].0, r[h].1);
            if k < c.len() {
                assert(b[r[h].0 + k] == c[k]);
            } else {
                lemma_gap_bytes(b, r, r[h].1, shown, width, k - c.len());
            }
        } else {
            lemma_gap_bytes(b, r, i + 1, shown + 1, width, k);
        }
    }
}

proof fn lemma_elided_plain_bytes(v: Seq<u8>, width: int, k: int)
    requires
        0 <= width < v.len(),
        forall|j: int| 0 <= j < v.len() ==> #[trigger] v[j] < 128,
        0 <= k < elided_plain(v, width).len(),
    ensures
        elided_plain(v, width)[k] < 128,
{
    if width > 3 {
        let left = (width - 3) / 2;
        let right = width - 3 - left;
        let o = elided_plain(v, width);
        if k < left {
            assert(o[k] == v[k]);
        } else if k >= left + 3 {
            assert(o[k] == v[v.len() - right + (k - left - 3)]);
        }
    }
}

#[verifier::spinoff_prover]
#[verifier::rlimit(40)]
proof fn lemma_elided_bytes(b: Seq<u8>, width: int, k: int)
    requires
        well_colored(b),
        0 <= width < visible_from(b, 0).len(),
        forall|j: int| 0 <= j < b.len() ==> #[trigger] b[j] < 128,
        0 <= k < elided_colored(b, colors_from(b, 0), width).len(),
    ensures
        elided_colored(b, colors_from(b, 0), width)[k] < 128,
{
    let r = colors_from(b, 0);
    let n = visible_from(b, 0).len() as int;
    lemma_color_ranges(b, 0);
    lemma_colors_bound(b, 0);
    let dots = if width < 3 {
        width
    } else {
        3
    };
    let left = (width - dots) / 2;
    let right = width - dots - left;
    lemma_elided_parts(b, left, n - right);
    let a = behind_column(b, r, 0, 0, left);
    let gap = colors_up_to(b, r, a.0, a.1, n - right);
    let front = b.take(a.0) + repeated(46u8, dots);
    let o = elided_colored(b, r, width);
    assert(o == front + gap.0 + b.skip(gap.1));
    if k < a.0 {
        assert(o[k] == b[k]);
    } else if k < front.len() {
        assert(o[k] == 46);
    } else if k < front.len() + gap.0.len() {
        let m = k - front.len();
        assert(o[k] == gap.0[m]);
        lemma_gap_bytes(b, r, a.0, a.1, n - right, m);
        let j = choose|j: int| 0 <= j < b.len() && b[j] == gap.0[m];
        assert(b[j] < 128);
    } else {
        assert(o[k] == b[gap.1 + (k - front.len() - gap.0.len())]);
    }
}

/// A coloured line that is shortened shows what shortening the line without its
/// colours gives, fits the room, and keeps all of its colours in their order. A
/// line that shows no more than there is room for stays as it is.
pub proof fn law_shortened_lines_keep_their_colors(s: Seq<char>, width: int)
    requires
        is_ascii_chars(s),
        well_colored(encode_utf8(s)),
        0 <= width,
    ensures
        ({
            let t = elided(s, width);
            let shown = without_ansi(s, 0);
            &&& without_ansi(t, 0) == elided(shown, width)
            &&& without_ansi(t, 0).len() <= width
            &&& colors_of(encode_utf8(t), 0) == colors_of(encode_utf8(s), 0)
            &&& shown.len() <= width ==> t == s
        }),
{
    let b = encode_utf8(s);
    let r = colors_from(b, 0);
    let v = visible_from(b, 0);
    let shown = without_ansi(s, 0);
    lemma_text_bytes(s);
    lemma_stripped(b, 0);
    lemma_color_ranges(b, 0);
    lemma_colors_bound(b, 0);
    assert(shown == byte_text(v));
    assert forall|k: int| 0 <= k < v.len() implies #[trigger] v[k] < 128 && v[k] != 27 by {
        lemma_visible_bytes(b, 0, k);
        let j = choose|j: int| 0 <= j < b.len() && b[j] == v[k];
        assert(b[j] < 128);
    }
    lemma_byte_text(v);
    assert(encode_utf8(shown) == v);
    assert(!v.contains(27u8));
    if v.len() <= width {
        // All of it is seen, and stays.
        assert(total_length(r) == b.len() - v.len());
        if b.len() > width && !b.contains(27u8) {
            assert forall|k: int| 0 <= k < b.len() implies #[trigger] b[k] != 27 by {
                assert(b.contains(b[k]));
            }
            lemma_colorless(b, 0);
            assert(b.skip(0) =~= b);
        }
        assert(elided(s, width) == s);
    } else {
        assert(v.len() <= b.len()) by {
            assert(total_length(r) == b.len() - v.len());
            lemma_total_grows(r, 0, 0, b.len() as int);
            assert(r.take(0) =~= Seq::empty());
        }
        let o = if b.contains(27u8) {
            elided_colored(b, r, width)
        } else {
            elided_plain(b, width)
        };
        if b.contains(27u8) {
            law_elided_colors_stay(b, width);
        } else {
            assert forall|k: int| 0 <= k < b.len() implies #[trigger] b[k] != 27 by {
                assert(b.contains(b[k]));
            }
            lemma_colorless(b, 0);
            assert(b.skip(0) =~= b);
            law_elided_text_fills_the_room(b, width);
            assert forall|k: int| 0 <= k < o.len() implies #[trigger] o[k] != 27 by {}
            lemma_colorless(o, 0);
            assert(o.skip(0) =~= o);
        }
        assert forall|k: int| 0 <= k < o.len() implies #[trigger] o[k] < 128 by {
            if b.contains(27u8) {
                lemma_elided_bytes(b, width, k);
            } else {
                lemma_elided_plain_bytes(b, width, k);
            }
        }
        lemma_byte_text(o);
        lemma_stripped(o, 0);
        law_elided_text_fills_the_room(v, width);
        let p = elided_plain(v, width);
        assert(visible_from(o, 0) == p);
        assert forall|k: int| 0 <= k < p.len() implies #[trigger] p[k] < 128 by {
            lemma_elided_plain_bytes(v, width, k);
        }
        lemma_byte_text(p);
        assert(elided(shown, width) == byte_text(p));
    }
}

proof fn lemma_ansi_moved(x: Seq<char>, b: Seq<char>, i: int)
    requires
        0 <= i <= b.len(),
    ensures
        without_ansi(x + b, x.len() + i) == without_ansi(b, i),
    decreases b.len() - i,
{
    let s = x + b;
    let n = x.len() as int;
    if i < b.len() {
        assert(s[n + i] == b[i]);
        if b[i] != '\u{1b}' {
            lemma_ansi_moved(x, b, i + 1);
        } else if i + 1 >= b.len() || b[i + 1] != '[' {
            if i + 1 < b.len() {
                assert(s[n + i + 1] == b[i + 1]);
            }
            lemma_ansi_moved(x, b, i + 1);
        } else {
            assert(s[n + i + 1] == b[i + 1]);
            lemma_scan(b, i + 2, not_letter());
            let j = scan(b, i + 2, not_letter());
            assert forall|k: int| n + i + 2 <= k < n + j implies not_letter()(#[trigger] s[k]) by {
                assert(s[k] == b[k - n]);
            }
            if j < b.len() {
                assert(s[n + j] == b[j]);
            }
            crate::text::lemma_scan_is(s, n + i + 2, not_letter(), n + j);
            if j < b.len() {
                lemma_ansi_moved(x, b, j + 1);
            }
        }
    }
}

proof fn lemma_plain_text_stays(s: Seq<char>, a: Seq<char>, i: int)
    requires
        0 <= i <= a.len(),
        a.is_prefix_of(s),
        forall|k: int| 0 <= k < a.len() ==> #[trigger] a[k] != '\u{1b}',
    ensures
        without_ansi(s, i) == a.skip(i) + without_ansi(s, a.len() as int),
    decreases a.len() - i,
{
    if i < a.len() {
        assert(s.subrange(0, a.len() as int)[i] == a[i]);
        assert(s[i] == a[i]);
        lemma_plain_text_stays(s, a, i + 1);
        assert(seq![a[i]] + a.skip(i + 1) =~= a.skip(i));
        assert(seq![s[i]] + (a.skip(i + 1) + without_ansi(s, a.len() as int)) =~= a.skip(i)
            + without_ansi(s, a.len() as int));
    } else {
        assert(a.skip(i) + without_ansi(s, i) =~= without_ansi(s, i));
    }
}

/// Text without ESC stays, and a control sequence behind it, from ESC and `[` to the
/// next letter, goes; what follows is treated likewise.
pub proof fn law_control_sequences_go(a: Seq<char>, p: Seq<char>, end: char, b: Seq<char>)
    requires
        forall|k: int| 0 <= k < a.len() ==> #[trigger] a[k] != '\u{1b}',
        forall|k: int|
            0 <= k < p.len() ==> !('a' <= #[trigger] p[k] <= 'z') && !('A' <= p[k] <= 'Z'),
        'a' <= end <= 'z' || 'A' <= end <= 'Z',
    ensures
        without_ansi(a, 0) == a,
        without_ansi(a + seq!['\u{1b}', '['] + p + seq![end] + b, 0) == a + without_ansi(b, 0),
{
    lemma_plain_text_stays(a, a, 0);
    assert(a.skip(0) =~= a);
    assert(without_ansi(a, a.len() as int) =~= Seq::<char>::empty());
    assert(a + Seq::<char>::empty() =~= a);
    let front = a + seq!['\u{1b}', '['] + p + seq![end];
    let s = front + b;
    assert(a.is_prefix_of(s)) by {
        assert(s.subrange(0, a.len() as int) =~= a);
    }
    lemma_plain_text_stays(s, a, 0);
    let n = a.len() as int;
    assert(s[n] == '\u{1b}');
    assert(s[n + 1] == '[');
    let j = n + 2 + p.len();
    assert forall|k: int| n + 2 <= k < j implies not_letter()(#[trigger] s[k]) by {
        assert(s[k] == p[k - n - 2]);
    }
    assert(s[j] == end);
    assert(!not_letter()(s[j]));
    crate::text::lemma_scan_is(s, n + 2, not_letter(), j);
    assert(without_ansi(s, n) == without_ansi(s, j + 1));
    assert(front.len() == j + 1);
    lemma_ansi_moved(front, b, 0);
}

} // verus!
