//! Parsing `cl.exe /showIncludes` output, for `deps = msvc`.

use vstd::prelude::*;
use vstd::string::*;

use crate::canon::canonicalize_path;
use crate::text::{chars_of, insert_ascending, string_of};

verus! {

use crate::canon::canonical;
use crate::text::{lemma_char_number, lemma_scan, lists, repeated, scan, texts};

/// The default English prefix MSVC uses for include notes.
pub const DEFAULT_DEPS_PREFIX: &'static str = "Note: including file: ";

/// The result of filtering compiler output.
#[derive(Debug, Default)]
pub struct ShowIncludes {
    /// Discovered include paths, sorted and de-duplicated.
    pub includes: Vec<String>,
    /// The compiler output with the include notes removed.
    pub filtered_output: String,
}

/// Accepts spaces.
pub open spec fn blank() -> spec_fn(char) -> bool {
    |c: char| c == ' '
}

/// Accepts what does not end a line.
pub open spec fn in_line() -> spec_fn(char) -> bool {
    |c: char| c != '\r' && c != '\n'
}

/// The prefix in force: the default one where none is given.
pub open spec fn prefix_in_force(deps_prefix: Seq<char>) -> Seq<char> {
    if deps_prefix.len() == 0 {
        DEFAULT_DEPS_PREFIX@
    } else {
        deps_prefix
    }
}

/// The path that an include note mentions.
pub open spec fn include_note(line: Seq<char>, deps_prefix: Seq<char>) -> Option<Seq<char>> {
    let p = prefix_in_force(deps_prefix);
    if line.len() > p.len() && line.take(p.len() as int) == p {
        Some(line.skip(scan(line, p.len() as int, blank())))
    } else {
        None
    }
}

/// A character in lower case, if it is an ASCII letter.
pub open spec fn lower_char(c: char) -> char {
    if 'A' <= c <= 'Z' {
        (c as int + 32) as char
    } else {
        c
    }
}

/// A text with its ASCII letters in lower case.
pub open spec fn lower(s: Seq<char>) -> Seq<char> {
    Seq::new(s.len(), |i: int| lower_char(s[i]))
}

/// Whether `t` stands at position `i` of `s`.
pub open spec fn stands_at(s: Seq<char>, i: int, t: Seq<char>) -> bool {
    0 <= i && i + t.len() <= s.len() && s.subrange(i, i + t.len()) == t
}

/// Whether `t` stands somewhere in `s`.
pub open spec fn holds_text(s: Seq<char>, t: Seq<char>) -> bool {
    exists|i: int| #[trigger] stands_at(s, i, t)
}

/// Whether `s` ends with `t`.
pub open spec fn ends_with_text(s: Seq<char>, t: Seq<char>) -> bool {
    stands_at(s, s.len() - t.len(), t)
}

/// Whether a path looks like one of the toolchain.
pub open spec fn is_system_path(path: Seq<char>) -> bool {
    holds_text(lower(path), "program files"@) || holds_text(
        lower(path),
        "microsoft visual studio"@,
    )
}

/// Whether a line looks like the name of a source file.
pub open spec fn is_source_name(line: Seq<char>) -> bool {
    let l = lower(line);
    ends_with_text(l, ".c"@) || ends_with_text(l, ".cc"@) || ends_with_text(l, ".cxx"@)
        || ends_with_text(l, ".cpp"@) || ends_with_text(l, ".c++"@)
}

/// What has been made of the lines of an output.
#[verifier::ext_equal]
pub struct Filtered {
    pub includes: Set<Seq<char>>,
    pub output: Seq<char>,
    /// Whether there was an include note.
    pub noted: bool,
}

/// What one more line makes of an output.
pub open spec fn line_filtered(f: Filtered, line: Seq<char>, deps_prefix: Seq<char>) -> Filtered {
    match include_note(line, deps_prefix) {
        Some(path) => Filtered {
            includes: if is_system_path(canonical(path)) {
                f.includes
            } else {
                f.includes.insert(canonical(path))
            },
            noted: true,
            ..f
        },
        None => if !f.noted && is_source_name(line) {
            f
        } else {
            Filtered { output: f.output + line + "\n"@, ..f }
        },
    }
}

/// The place just behind the line end at `end`, if there is one: `\r\n` ends one
/// line, and so do `\r` and `\n` alone.
pub open spec fn past_line_end(s: Seq<char>, end: int) -> int {
    if end + 1 < s.len() && s[end] == '\r' && s[end + 1] == '\n' {
        end + 2
    } else if end < s.len() {
        end + 1
    } else {
        end
    }
}

/// What the lines from position `p` on make of an output.
pub open spec fn lines_filtered(f: Filtered, s: Seq<char>, p: int, deps_prefix: Seq<char>) -> Filtered
    decreases s.len() - p,
{
    if 0 <= p < s.len() {
        proof {
            lemma_scan(s, p, in_line());
        }
        let end = scan(s, p, in_line());
        lines_filtered(
            line_filtered(f, s.subrange(p, end), deps_prefix),
            s,
            past_line_end(s, end),
            deps_prefix,
        )
    } else {
        f
    }
}

/// What is made of an output.
pub open spec fn filtered(output: Seq<char>, deps_prefix: Seq<char>) -> Filtered {
    lines_filtered(
        Filtered { includes: Set::empty(), output: Seq::empty(), noted: false },
        output,
        0,
        deps_prefix,
    )
}

fn text_at(v: &Vec<char>, i: usize, t: &Vec<char>) -> (r: bool)
    ensures
        r == stands_at(v@, i as int, t@),
{
    if t.len() > v.len() || i > v.len() - t.len() {
        return false;
    }
    let mut k: usize = 0;
    let n: usize = v.len();
    while k < t.len()
        invariant
            k <= t@.len(),
            n == v@.len(),
            i + t@.len() <= n,
            forall|j: int| 0 <= j < k ==> v@[i + j] == t@[j],
        decreases t@.len() - k,
    {
        if v[i + k] != t[k] {
            assert(v@.subrange(i as int, i + t@.len())[k as int] != t@[k as int]);
            return false;
        }
        k += 1;
    }
    assert(v@.subrange(i as int, i + t@.len()) =~= t@);
    true
}

fn has_text(v: &Vec<char>, t: &str) -> (r: bool)
    ensures
        r == holds_text(v@, t@),
{
    let w = chars_of(t);
    let mut i: usize = 0;
    while i < v.len()
        invariant
            i <= v@.len(),
            w@ == t@,
            forall|j: int| 0 <= j < i ==> !#[trigger] stands_at(v@, j, t@),
        decreases v@.len() - i,
    {
        if text_at(v, i, &w) {
            assert(stands_at(v@, i as int, t@));
            return true;
        }
        i += 1;
    }
    let last: bool = text_at(v, i, &w);
    assert(stands_at(v@, i as int, t@) == last);
    assert forall|j: int| !last implies !#[trigger] stands_at(v@, j, t@) by {
        if j >= 0 && j > v@.len() {
            assert(j + t@.len() > v@.len());
        }
    }
    last
}

fn has_end(v: &Vec<char>, t: &str) -> (r: bool)
    ensures
        r == ends_with_text(v@, t@),
{
    let w = chars_of(t);
    if w.len() > v.len() {
        return false;
    }
    text_at(v, v.len() - w.len(), &w)
}

pub(crate) fn lowered(s: &str) -> (r: Vec<char>)
    ensures
        r@ == lower(s@),
{
    let v = chars_of(s);
    let mut out: Vec<char> = Vec::new();
    let mut i: usize = 0;
    while i < v.len()
        invariant
            i <= v@.len(),
            v@ == s@,
            out@.len() == i,
            forall|j: int| 0 <= j < i ==> out@[j] == lower_char(s@[j]),
        decreases v@.len() - i,
    {
        let c: char = v[i];
        let u: u32 = c as u32;
        proof {
            lemma_char_number(c);
        }
        if 65 <= u && u <= 90 {
            out.push((u as u8 + 32) as char);
        } else {
            out.push(c);
        }
        i += 1;
    }
    assert(out@ =~= lower(s@));
    out
}

/// If `line` is an include note, return the path it mentions.
pub fn filter_show_includes(line: &str, deps_prefix: &str) -> (r: Option<String>)
    ensures
        match (r, include_note(line@, deps_prefix@)) {
            (Some(s), Some(w)) => s@ == w,
            (None, None) => true,
            _ => false,
        },
{
    let prefix: &str = if deps_prefix.is_empty() {
        DEFAULT_DEPS_PREFIX
    } else {
        deps_prefix
    };
    let v = chars_of(line);
    let p = chars_of(prefix);
    if v.len() <= p.len() {
        return None;
    }
    if !text_at(&v, 0, &p) {
        assert(line@.subrange(0, p@.len() as int) =~= line@.take(p@.len() as int));
        return None;
    }
    assert(line@.subrange(0, p@.len() as int) =~= line@.take(p@.len() as int));
    let mut i: usize = p.len();
    while i < v.len() && v[i] == ' '
        invariant
            p@.len() <= i <= v@.len(),
            v@ == line@,
            scan(line@, i as int, blank()) == scan(line@, p@.len() as int, blank()),
        decreases v@.len() - i,
    {
        i += 1;
    }
    assert(v@.subrange(i as int, v@.len() as int) =~= line@.skip(i as int));
    Some(string_of(v.as_slice(), i, v.len()))
}

/// True for paths that look like they come from the toolchain rather than the
/// project, which are left out of the dependency list.
pub fn is_system_include(path: &str) -> (r: bool)
    ensures
        r == is_system_path(path@),
{
    let l = lowered(path);
    has_text(&l, "program files") || has_text(&l, "microsoft visual studio")
}

/// True if `line` is just the input filename that `cl.exe` echoes.
pub fn is_input_filename(line: &str) -> (r: bool)
    ensures
        r == is_source_name(line@),
{
    let l = lowered(line);
    has_end(&l, ".c") || has_end(&l, ".cc") || has_end(&l, ".cxx") || has_end(&l, ".cpp")
        || has_end(&l, ".c++")
}

fn filter_line(r: &mut ShowIncludes, noted: &mut bool, line: &str, deps_prefix: &str, Ghost(f): Ghost<
    Filtered,
>)
    requires
        lists(texts(old(r).includes@), f.includes),
        old(r).filtered_output@ == f.output,
        *old(noted) == f.noted,
    ensures
        lists(texts(final(r).includes@), line_filtered(f, line@, deps_prefix@).includes),
        final(r).filtered_output@ == line_filtered(f, line@, deps_prefix@).output,
        *final(noted) == line_filtered(f, line@, deps_prefix@).noted,
{
    match filter_show_includes(line, deps_prefix) {
        Some(path) => {
            *noted = true;
            let mut normalized: String = path;
            canonicalize_path(&mut normalized);
            if !is_system_include(normalized.as_str()) {
                insert_ascending(&mut r.includes, normalized);
            }
        },
        None => {
            // The echoed input filename is dropped.
            if *noted || !is_input_filename(line) {
                r.filtered_output.append(line);
                r.filtered_output.append("\n");
            }
        },
    }
}

/// Split `output` into discovered includes and the output to show the user.
pub fn parse_show_includes(output: &str, deps_prefix: &str) -> (r: ShowIncludes)
    ensures
        lists(texts(r.includes@), filtered(output@, deps_prefix@).includes),
        r.filtered_output@ == filtered(output@, deps_prefix@).output,
{
    let v = chars_of(output);
    let ghost s = output@;
    let mut r = ShowIncludes { includes: Vec::new(), filtered_output: String::new() };
    let mut noted: bool = false;
    let ghost mut f = Filtered { includes: Set::empty(), output: Seq::empty(), noted: false };
    proof {
        assert(texts(r.includes@) =~= Seq::empty());
        assert(r.filtered_output@ =~= Seq::empty());
    }
    let mut p: usize = 0;
    while p < v.len()
        invariant
            p <= v@.len(),
            v@ == s,
            s == output@,
            lists(texts(r.includes@), f.includes),
            r.filtered_output@ == f.output,
            noted == f.noted,
            lines_filtered(f, s, p as int, deps_prefix@) == filtered(s, deps_prefix@),
        decreases v@.len() - p,
    {
        let mut end: usize = p;
        while end < v.len() && v[end] != '\r' && v[end] != '\n'
            invariant
                p <= end <= v@.len(),
                v@ == s,
                scan(s, end as int, in_line()) == scan(s, p as int, in_line()),
            decreases v@.len() - end,
        {
            end += 1;
        }
        let line: String = string_of(v.as_slice(), p, end);
        filter_line(&mut r, &mut noted, line.as_str(), deps_prefix, Ghost(f));
        proof {
            lemma_scan(s, p as int, in_line());
            f = line_filtered(f, s.subrange(p as int, end as int), deps_prefix@);
        }
        // Blank lines stay. What stands between `\r` and `\n` is no line.
        if end < v.len() && v[end] == '\r' && end + 1 < v.len() && v[end + 1] == '\n' {
            p = end + 2;
        } else if end < v.len() {
            p = end + 1;
        } else {
            p = end;
        }
    }
    r
}

/// Whether a line is a note about `path`: the prefix, spaces, and the path, and
/// something behind the prefix at all.
pub open spec fn is_note_about(line: Seq<char>, deps_prefix: Seq<char>, path: Seq<char>) -> bool {
    &&& line.len() > prefix_in_force(deps_prefix).len()
    &&& path.len() > 0 ==> path[0] != ' '
    &&& exists|n: nat|
        line == prefix_in_force(deps_prefix) + #[trigger] repeated(' ', n as int) + path
}

/// Whether a line starts with the prefix and goes on.
pub open spec fn is_note(line: Seq<char>, deps_prefix: Seq<char>) -> bool {
    let p = prefix_in_force(deps_prefix);
    line.len() > p.len() && p.is_prefix_of(line)
}

/// Lines, each with its end.
pub open spec fn lines_ended(lines: Seq<Seq<char>>, crlf: Seq<bool>, k: int) -> Seq<char>
    decreases lines.len() - k,
{
    if 0 <= k < lines.len() {
        lines[k] + (if crlf[k] {
            seq!['\r', '\n']
        } else {
            seq!['\n']
        }) + lines_ended(lines, crlf, k + 1)
    } else {
        Seq::empty()
    }
}

/// Whether line `k` is to be shown: it is no note, nor the name of a source file
/// before the first note, which the compiler echoes.
pub open spec fn is_shown(lines: Seq<Seq<char>>, deps_prefix: Seq<char>, k: int) -> bool {
    &&& !is_note(lines[k], deps_prefix)
    &&& is_source_name(lines[k]) ==> exists|j: int|
        0 <= j < k && is_note(#[trigger] lines[j], deps_prefix)
}

/// The first `k` lines that are to be shown.
pub open spec fn lines_shown(lines: Seq<Seq<char>>, deps_prefix: Seq<char>, k: int) -> Seq<char>
    decreases k,
{
    if k <= 0 {
        Seq::empty()
    } else if is_shown(lines, deps_prefix, k - 1) {
        lines_shown(lines, deps_prefix, k - 1) + lines[k - 1] + "\n"@
    } else {
        lines_shown(lines, deps_prefix, k - 1)
    }
}

proof fn lemma_include_note(line: Seq<char>, deps_prefix: Seq<char>, path: Seq<char>)
    ensures
        include_note(line, deps_prefix) is Some == is_note(line, deps_prefix),
        is_note_about(line, deps_prefix, path) <==> include_note(line, deps_prefix) == Some(path),
{
    let p = prefix_in_force(deps_prefix);
    let n = p.len() as int;
    if line.len() > n {
        lemma_scan(line, n, blank());
        let j = scan(line, n, blank());
        assert(p.is_prefix_of(line) <==> line.take(n) == p) by {
            assert(line.take(n) =~= line.subrange(0, n));
        }
        if line.take(n) == p {
            let rest = line.skip(j);
            assert(line =~= p + repeated(' ', j - n) + rest) by {
                assert forall|k: int| 0 <= k < line.len() implies line[k] == (p + repeated(
                    ' ',
                    j - n,
                ) + rest)[k] by {
                    if k < n {
                        assert(line.take(n)[k] == p[k]);
                    } else if k < j {
                        assert(blank()(line[k]));
                    }
                }
            }
            if rest.len() > 0 {
                assert(rest[0] == line[j]);
                assert(!blank()(line[j]));
            }
            assert(is_note_about(line, deps_prefix, rest)) by {
                let m = (j - n) as nat;
                assert(line == p + repeated(' ', m as int) + rest);
            }
        }
        if is_note_about(line, deps_prefix, path) {
            let m = choose|m: nat| line == p + #[trigger] repeated(' ', m as int) + path;
            assert(line.take(n) =~= p);
            assert(j == n + m) by {
                assert forall|k: int| n <= k < n + m implies blank()(#[trigger] line[k]) by {
                    assert(line[k] == repeated(' ', m as int)[k - n]);
                }
                if j < n + m {
                    assert(blank()(line[j]));
                }
                if j > n + m {
                    assert(blank()(line[n + m]));
                    assert(line[n + m as int] == path[0]);
                }
            }
            assert(line.skip(j) =~= path);
        }
    }
}

proof fn lemma_lines_read(
    f: Filtered,
    s: Seq<char>,
    p: int,
    deps_prefix: Seq<char>,
    lines: Seq<Seq<char>>,
    crlf: Seq<bool>,
    k: int,
)
    requires
        0 <= p <= s.len(),
        0 <= k <= lines.len(),
        crlf.len() == lines.len(),
        forall|j: int, c: int|
            0 <= j < lines.len() && 0 <= c < lines[j].len() ==> in_line()(
                #[trigger] lines[j][c],
            ),
        s.skip(p) == lines_ended(lines, crlf, k),
        f.noted == exists|j: int| 0 <= j < k && is_note(#[trigger] lines[j], deps_prefix),
        f.output == lines_shown(lines, deps_prefix, k),
        forall|x: Seq<char>| #[trigger]
            f.includes.contains(x) <==> is_included(lines, deps_prefix, k, x),
    ensures
        ({
            let g = lines_filtered(f, s, p, deps_prefix);
            let n = lines.len() as int;
            &&& g.output == lines_shown(lines, deps_prefix, n)
            &&& forall|x: Seq<char>| #[trigger]
                g.includes.contains(x) <==> is_included(lines, deps_prefix, n, x)
        }),
    decreases lines.len() - k,
{
    if k < lines.len() {
        let line = lines[k];
        let end = if crlf[k] {
            seq!['\r', '\n']
        } else {
            seq!['\n']
        };
        let rest = lines_ended(lines, crlf, k + 1);
        let n = line.len() as int;
        let whole = line + end + rest;
        assert(s.skip(p) == whole);
        assert forall|c: int| 0 <= c < whole.len() implies s[p + c] == #[trigger] whole[c] by {
            assert(s.skip(p)[c] == whole[c]);
        }
        assert(s.skip(p).len() == whole.len());
        lemma_scan(s, p, in_line());
        let stop = scan(s, p, in_line());
        assert(stop == p + n) by {
            assert(s[p + n] == whole[n]);
            assert(whole[n] == end[0]);
            assert(!in_line()(s[p + n]));
            if stop < p + n {
                assert(s[p + (stop - p)] == whole[stop - p]);
                assert(whole[stop - p] == line[stop - p]);
                assert(in_line()(lines[k][stop - p]));
            }
            if stop > p + n {
                assert(in_line()(s[p + n]));
            }
        }
        assert(s.subrange(p, stop) =~= line) by {
            assert forall|c: int| 0 <= c < n implies s.subrange(p, stop)[c] == line[c] by {
                assert(s[p + c] == whole[c]);
            }
        }
        let next = past_line_end(s, stop);
        assert(next == p + n + end.len()) by {
            assert(s[p + n] == whole[n] && whole[n] == end[0]);
            if crlf[k] {
                assert(s[p + (n + 1)] == whole[n + 1] && whole[n + 1] == end[1]);
            }
        }
        assert(s.skip(next) =~= rest) by {
            assert forall|c: int| 0 <= c < rest.len() implies s.skip(next)[c] == rest[c] by {
                assert(s[p + (n + end.len() + c)] == whole[n + end.len() + c]);
            }
        }
        let g = line_filtered(f, line, deps_prefix);
        lemma_include_note(line, deps_prefix, Seq::empty());
        let noted = include_note(line, deps_prefix);
        assert forall|x: Seq<char>| #[trigger]
            g.includes.contains(x) <==> is_included(lines, deps_prefix, k + 1, x) by {
            assert(f.includes.contains(x) <==> is_included(lines, deps_prefix, k, x));
            if let Some(path) = noted {
                lemma_include_note(line, deps_prefix, path);
                if g.includes.contains(x) && !f.includes.contains(x) {
                    assert(is_note_about(lines[k], deps_prefix, path));
                }
            }
            if is_included(lines, deps_prefix, k, x) {
                let (j, path) = choose|j: int, path: Seq<char>|
                    0 <= j < k && #[trigger] is_note_about(lines[j], deps_prefix, path)
                        && canonical(path) == x;
                assert(is_note_about(lines[j], deps_prefix, path));
            }
            if is_included(lines, deps_prefix, k + 1, x) {
                let (j, path) = choose|j: int, path: Seq<char>|
                    0 <= j < k + 1 && #[trigger] is_note_about(lines[j], deps_prefix, path)
                        && canonical(path) == x;
                if j == k {
                    lemma_include_note(line, deps_prefix, path);
                } else {
                    assert(is_included(lines, deps_prefix, k, x));
                }
            }
        }
        assert(g.noted == exists|j: int|
            0 <= j < k + 1 && is_note(#[trigger] lines[j], deps_prefix)) by {
            if f.noted {
                let j = choose|j: int| 0 <= j < k && is_note(#[trigger] lines[j], deps_prefix);
                assert(is_note(lines[j], deps_prefix));
            }
            if is_note(line, deps_prefix) {
                assert(is_note(lines[k], deps_prefix));
            }
        }
        assert(g.output == lines_shown(lines, deps_prefix, k + 1));
        lemma_lines_read(g, s, next, deps_prefix, lines, crlf, k + 1);
    } else {
        assert(s.skip(p).len() == 0);
    }
}

/// Whether one of the first `k` lines is a note about the file `x`, which is none
/// of the toolchain.
pub open spec fn is_included(
    lines: Seq<Seq<char>>,
    deps_prefix: Seq<char>,
    k: int,
    x: Seq<char>,
) -> bool {
    &&& !is_system_path(x)
    &&& exists|j: int, path: Seq<char>|
        0 <= j < k && #[trigger] is_note_about(lines[j], deps_prefix, path) && canonical(path) == x
}

/// What a compiler prints is told apart line by line, wherever its lines end: just
/// the files that it notes, but for those of the toolchain, are included, and all
/// other lines are shown, in order, but for the name of the source file that it
/// echoes first.
pub proof fn law_notes_become_includes(
    lines: Seq<Seq<char>>,
    crlf: Seq<bool>,
    deps_prefix: Seq<char>,
)
    requires
        crlf.len() == lines.len(),
        forall|j: int, c: int|
            0 <= j < lines.len() && 0 <= c < lines[j].len() ==> (#[trigger] lines[j][c]) != '\r'
                && lines[j][c] != '\n',
    ensures
        ({
            let f = filtered(lines_ended(lines, crlf, 0), deps_prefix);
            let n = lines.len() as int;
            &&& f.output == lines_shown(lines, deps_prefix, n)
            &&& forall|x: Seq<char>| #[trigger]
                f.includes.contains(x) <==> is_included(lines, deps_prefix, n, x)
        }),
{
    let s = lines_ended(lines, crlf, 0);
    let f = Filtered { includes: Set::empty(), output: Seq::empty(), noted: false };
    assert(s.skip(0) =~= s);
    assert forall|j: int, c: int|
        0 <= j < lines.len() && 0 <= c < lines[j].len() implies in_line()(
        #[trigger] lines[j][c],
    ) by {}
    lemma_lines_read(f, s, 0, deps_prefix, lines, crlf, 0);
}

} // verus!
