//! Parser for Makefile-style dependency files (`gcc -MD` output).
//!
//! This follows what GCC and Clang actually emit:
//!
//! * a backslash escapes a space or a hash sign,
//! * a space preceded by 2N+1 backslashes is N backslashes then a space,
//! * a space preceded by 2N backslashes is 2N backslashes ending a filename,
//! * `\:` is a colon unless whitespace follows (then it is literal text),
//! * `$$` is a literal dollar sign,
//! * `\` at end of line is a line continuation.

use vstd::prelude::*;
use vstd::string::*;
use vstd::utf8::*;

use crate::text::{push_range, push_repeated, string_from_utf8, string_from_utf8_lossy};

verus! {

use crate::text::{lemma_scan, repeated, scan, texts, utf8_lossy};

/// The targets and prerequisites found in a depfile.
#[derive(Debug, Default, PartialEq, Eq)]
pub struct Depfile {
    /// Declared outputs (the left-hand side), de-duplicated.
    pub outs: Vec<String>,
    /// Declared inputs (the right-hand side), de-duplicated.
    pub ins: Vec<String>,
}

/// The bytes that a filename may hold as they are.
pub open spec fn is_plain(c: u8) -> bool {
    ||| 97 <= c <= 122
    ||| 65 <= c <= 90
    ||| 48 <= c <= 57
    ||| c == 43
    ||| c == 63
    ||| c == 34
    ||| c == 39
    ||| c == 38
    ||| c == 44
    ||| c == 47
    ||| c == 95
    ||| c == 58
    ||| c == 46
    ||| c == 126
    ||| c == 40
    ||| c == 41
    ||| c == 125
    ||| c == 123
    ||| c == 37
    ||| c == 61
    ||| c == 64
    ||| c == 91
    ||| c == 93
    ||| c == 33
    ||| c == 45
    ||| c >= 0x80
}

/// Accepts the plain bytes.
pub open spec fn plain() -> spec_fn(u8) -> bool {
    |c: u8| is_plain(c)
}

/// Accepts the backslash.
pub open spec fn backslash() -> spec_fn(u8) -> bool {
    |c: u8| c == 92
}

/// One piece of a filename: the bytes it adds, where the next piece starts,
/// whether the filename ends here, and whether the line does.
pub struct Piece {
    pub text: Seq<u8>,
    pub next: int,
    pub ends: bool,
    pub newline: bool,
}

/// What a run of backslashes from `i` up to `j` stands for, by what follows.
pub open spec fn backslash_piece(c: Seq<u8>, i: int, j: int) -> Piece {
    let k = j - i;
    if j >= c.len() || c[j] == 0 || c[j] == 13 || c[j] == 10 {
        if k >= 2 {
            Piece { text: c.subrange(i, j), next: j, ends: false, newline: false }
        } else if j < c.len() && c[j] == 10 {
            Piece { text: Seq::empty(), next: i + 2, ends: true, newline: false }
        } else if j < c.len() && c[j] == 13 && i + 2 < c.len() && c[i + 2] == 10 {
            Piece { text: Seq::empty(), next: i + 3, ends: true, newline: false }
        } else {
            Piece { text: Seq::empty(), next: i + 1, ends: true, newline: false }
        }
    } else if c[j] == 32 {
        if k % 2 == 1 {
            Piece {
                text: repeated(92u8, k / 2) + seq![32u8],
                next: j + 1,
                ends: false,
                newline: false,
            }
        } else {
            Piece { text: repeated(92u8, k), next: j + 1, ends: true, newline: false }
        }
    } else if c[j] == 35 {
        Piece { text: repeated(92u8, k - 1) + seq![35u8], next: j + 1, ends: false, newline: false }
    } else if c[j] == 58 {
        if j + 1 < c.len() && (c[j + 1] == 0 || c[j + 1] == 32 || c[j + 1] == 13 || c[j + 1] == 10
            || c[j + 1] == 9) {
            Piece {
                text: c.subrange(i, j + 1),
                next: j + 2,
                ends: true,
                newline: c[j + 1] == 10,
            }
        } else {
            Piece {
                text: repeated(92u8, k - 1) + seq![58u8],
                next: j + 1,
                ends: false,
                newline: false,
            }
        }
    } else {
        Piece { text: c.subrange(i, j + 1), next: j + 1, ends: false, newline: false }
    }
}

/// The piece of a filename that starts at `i`.
pub open spec fn piece_at(c: Seq<u8>, i: int) -> Piece {
    let b = c[i];
    if b == 92 {
        backslash_piece(c, i, scan(c, i, backslash()))
    } else if b == 36 && i + 1 < c.len() && c[i + 1] == 36 {
        Piece { text: seq![36u8], next: i + 2, ends: false, newline: false }
    } else if is_plain(b) {
        let j = scan(c, i, plain());
        Piece { text: c.subrange(i, j), next: j, ends: false, newline: false }
    } else if b == 10 {
        Piece { text: Seq::empty(), next: i + 1, ends: true, newline: true }
    } else if b == 13 && i + 1 < c.len() && c[i + 1] == 10 {
        Piece { text: Seq::empty(), next: i + 2, ends: true, newline: true }
    } else {
        Piece { text: Seq::empty(), next: i + 1, ends: true, newline: false }
    }
}

/// Every piece takes at least one byte.
pub proof fn lemma_piece_advances(c: Seq<u8>, i: int)
    requires
        0 <= i < c.len(),
    ensures
        i < piece_at(c, i).next <= c.len(),
{
    lemma_scan(c, i, backslash());
    lemma_scan(c, i, plain());
    assert(c[i] == 92 ==> scan(c, i, backslash()) > i) by {
        lemma_scan(c, i + 1, backslash());
    }
    assert(is_plain(c[i]) ==> scan(c, i, plain()) > i) by {
        lemma_scan(c, i + 1, plain());
    }
}

/// The filename that starts at `i`: all its pieces together.
pub open spec fn name_at(c: Seq<u8>, i: int) -> Piece
    decreases c.len() - i,
{
    if 0 <= i < c.len() {
        proof {
            lemma_piece_advances(c, i);
        }
        let p = piece_at(c, i);
        if p.ends {
            p
        } else {
            let rest = name_at(c, p.next);
            Piece { text: p.text + rest.text, next: rest.next, ends: true, newline: rest.newline }
        }
    } else {
        Piece { text: Seq::empty(), next: i, ends: true, newline: false }
    }
}

/// What has been read of a depfile.
pub struct Reading {
    /// The names on the left of a colon.
    pub outs: Seq<Seq<u8>>,
    /// The names on the right of a colon.
    pub ins: Seq<Seq<u8>>,
    /// Whether a colon has been seen.
    pub have_target: bool,
    /// Whether the next name stands on the left of a colon.
    pub targets: bool,
    /// Whether an input of an earlier rule stood on the left of this one.
    pub poisoned: bool,
    /// Whether no name has been seen.
    pub empty: bool,
}

/// The state before anything has been read.
pub open spec fn nothing_read() -> Reading {
    Reading {
        outs: Seq::empty(),
        ins: Seq::empty(),
        have_target: false,
        targets: true,
        poisoned: false,
        empty: true,
    }
}

/// A name without the colon at its end, if it has one.
pub open spec fn without_colon(t: Seq<u8>) -> Seq<u8> {
    if t.len() > 0 && t.last() == 58 {
        t.drop_last()
    } else {
        t
    }
}

/// What one more name makes of what has been read, or nothing when it is a new
/// input of something that is itself an input.
pub open spec fn after_name(r: Reading, p: Piece) -> Option<Reading> {
    let dependency = !r.targets;
    let colon = p.text.len() > 0 && p.text.last() == 58;
    let name = without_colon(p.text);
    let targets = r.targets && !colon;
    let known = r.ins.contains(name);
    if name.len() > 0 && !known && dependency && r.poisoned {
        None
    } else {
        let poisoned = r.poisoned || (name.len() > 0 && known && !dependency);
        Some(
            Reading {
                outs: if name.len() > 0 && !known && !dependency && !r.outs.contains(name) {
                    r.outs.push(name)
                } else {
                    r.outs
                },
                ins: if name.len() > 0 && !known && dependency {
                    r.ins.push(name)
                } else {
                    r.ins
                },
                have_target: r.have_target || colon,
                targets: targets || p.newline,
                poisoned: poisoned && !p.newline,
                empty: r.empty && name.len() == 0,
            },
        )
    }
}

/// What has been read once everything from `i` on has been added to `r`.
pub open spec fn read_from(c: Seq<u8>, i: int, r: Reading) -> Option<Reading>
    decreases c.len() - i,
{
    if 0 <= i < c.len() {
        proof {
            lemma_name_advances(c, i);
        }
        let p = name_at(c, i);
        match after_name(r, p) {
            Some(n) => read_from(c, p.next, n),
            None => None,
        }
    } else {
        Some(r)
    }
}

/// Every filename takes at least one byte.
pub proof fn lemma_name_advances(c: Seq<u8>, i: int)
    requires
        0 <= i < c.len(),
    ensures
        i < name_at(c, i).next <= c.len(),
    decreases c.len() - i,
{
    lemma_piece_advances(c, i);
    let p = piece_at(c, i);
    if !p.ends && p.next < c.len() {
        lemma_name_advances(c, p.next);
    } else if !p.ends {
        assert(name_at(c, p.next).next == p.next);
    }
}

/// The position of the first name that is not UTF-8, or the number of names.
pub open spec fn first_invalid(names: Seq<Seq<u8>>, k: int) -> int
    decreases names.len() - k,
{
    if 0 <= k < names.len() && valid_utf8(names[k]) {
        first_invalid(names, k + 1)
    } else {
        k
    }
}

/// The names as text.
pub open spec fn decoded(names: Seq<Seq<u8>>) -> Seq<Seq<char>> {
    Seq::new(names.len(), |i: int| decode_utf8(names[i]))
}

/// The outcome of turning names into text.
pub open spec fn names_result(names: Seq<Seq<u8>>) -> Result<Seq<Seq<char>>, Seq<char>> {
    let k = first_invalid(names, 0);
    if k < names.len() {
        Err("path is not valid UTF-8: "@ + utf8_lossy(names[k]))
    } else {
        Ok(decoded(names))
    }
}

/// The outputs and inputs that a depfile declares, or what is wrong with it.
pub open spec fn depfile_of(c: Seq<u8>) -> Result<(Seq<Seq<char>>, Seq<Seq<char>>), Seq<char>> {
    match read_from(c, 0, nothing_read()) {
        None => Err("inputs may not also have inputs"@),
        Some(r) => if !r.have_target && !r.empty {
            Err("expected ':' in depfile"@)
        } else {
            match names_result(r.outs) {
                Err(e) => Err(e),
                Ok(outs) => match names_result(r.ins) {
                    Err(e) => Err(e),
                    Ok(ins) => Ok((outs, ins)),
                },
            }
        },
    }
}

/// The bytes of byte strings.
pub open spec fn byte_texts(v: Seq<Vec<u8>>) -> Seq<Seq<u8>> {
    Seq::new(v.len(), |i: int| v[i]@)
}

fn plain_byte(c: u8) -> (r: bool)
    ensures
        r == is_plain(c),
{
    (97 <= c && c <= 122) || (65 <= c && c <= 90) || (48 <= c && c <= 57) || c == 43 || c == 63
        || c == 34 || c == 39 || c == 38 || c == 44 || c == 47 || c == 95 || c == 58 || c == 46
        || c == 126 || c == 40 || c == 41 || c == 125 || c == 123 || c == 37 || c == 61 || c == 64
        || c == 91 || c == 93 || c == 33 || c == 45 || c >= 0x80
}

/// Add the piece at `i` to `buf`, returning where the next piece starts,
/// whether the filename ends, and whether the line does.
fn read_piece(c: &[u8], i: usize, buf: &mut Vec<u8>) -> (r: (usize, bool, bool))
    requires
        i < c@.len(),
    ensures
        ({
            let p = piece_at(c@, i as int);
            &&& final(buf)@ == old(buf)@ + p.text
            &&& r.0 == p.next
            &&& r.1 == p.ends
            &&& r.2 == p.newline
            &&& i < r.0 <= c@.len()
        }),
{
    let n: usize = c.len();
    let b: u8 = c[i];
    let ghost p = piece_at(c@, i as int);
    let ghost start = buf@;
    proof {
        lemma_piece_advances(c@, i as int);
        assert(start + Seq::<u8>::empty() =~= start);
    }
    if b == 92 {
        let mut j: usize = i + 1;
        while j < n && c[j] == 92
            invariant
                n == c@.len(),
                i < j <= n,
                scan(c@, j as int, backslash()) == scan(c@, i as int, backslash()),
            decreases n - j,
        {
            j += 1;
        }
        assert(j == scan(c@, i as int, backslash()));
        let k: usize = j - i;
        if j >= n || c[j] == 0 || c[j] == 13 || c[j] == 10 {
            if k >= 2 {
                push_range(buf, c, i, j);
                return (j, false, false);
            }
            if j < n && c[j] == 10 {
                return (i + 2, true, false);
            }
            if j < n && c[j] == 13 && n - i > 2 && c[i + 2] == 10 {
                return (i + 3, true, false);
            }
            return (i + 1, true, false);
        }
        let after: u8 = c[j];
        if after == 32 {
            if k % 2 == 1 {
                push_repeated(buf, 92, k / 2);
                buf.push(32);
                assert(buf@ =~= start + p.text);
                return (j + 1, false, false);
            }
            push_repeated(buf, 92, k);
            return (j + 1, true, false);
        }
        if after == 35 {
            push_repeated(buf, 92, k - 1);
            buf.push(35);
            assert(buf@ =~= start + p.text);
            return (j + 1, false, false);
        }
        if after == 58 {
            if n - j > 1 && (c[j + 1] == 0 || c[j + 1] == 32 || c[j + 1] == 13 || c[j + 1] == 10
                || c[j + 1] == 9) {
                push_range(buf, c, i, j + 1);
                return (j + 2, true, c[j + 1] == 10);
            }
            push_repeated(buf, 92, k - 1);
            buf.push(58);
            assert(buf@ =~= start + p.text);
            return (j + 1, false, false);
        }
        push_range(buf, c, i, j + 1);
        return (j + 1, false, false);
    }
    if b == 36 && n - i > 1 && c[i + 1] == 36 {
        buf.push(36);
        assert(buf@ =~= start + p.text);
        return (i + 2, false, false);
    }
    if plain_byte(b) {
        let mut j: usize = i;
        while j < n && plain_byte(c[j])
            invariant
                n == c@.len(),
                i <= j <= n,
                scan(c@, j as int, plain()) == scan(c@, i as int, plain()),
            decreases n - j,
        {
            j += 1;
        }
        push_range(buf, c, i, j);
        return (j, false, false);
    }
    if b == 10 {
        return (i + 1, true, true);
    }
    if b == 13 && n - i > 1 && c[i + 1] == 10 {
        return (i + 2, true, true);
    }
    (i + 1, true, false)
}

fn bytes_equal(a: &Vec<u8>, b: &Vec<u8>) -> (r: bool)
    ensures
        r == (a@ == b@),
{
    if a.len() != b.len() {
        return false;
    }
    let mut i: usize = 0;
    while i < a.len()
        invariant
            i <= a.len() == b.len(),
            forall|k: int| 0 <= k < i ==> a@[k] == b@[k],
        decreases a.len() - i,
    {
        if a[i] != b[i] {
            return false;
        }
        i += 1;
    }
    assert(a@ =~= b@);
    true
}

fn contains_name(v: &Vec<Vec<u8>>, x: &Vec<u8>) -> (r: bool)
    ensures
        r == byte_texts(v@).contains(x@),
{
    let mut i: usize = 0;
    while i < v.len()
        invariant
            i <= v.len(),
            forall|k: int| 0 <= k < i ==> (#[trigger] v@[k])@ != x@,
        decreases v.len() - i,
    {
        if bytes_equal(&v[i], x) {
            assert(byte_texts(v@)[i as int] == x@);
            return true;
        }
        i += 1;
    }
    assert forall|k: int| 0 <= k < v.len() implies byte_texts(v@)[k] != x@ by {
        assert(v@[k]@ != x@);
    }
    false
}

fn to_strings(v: Vec<Vec<u8>>) -> (r: Result<Vec<String>, String>)
    ensures
        match (r, names_result(byte_texts(v@))) {
            (Ok(s), Ok(t)) => texts(s@) == t,
            (Err(e), Err(m)) => e@ == m,
            _ => false,
        },
{
    let ghost names = byte_texts(v@);
    let mut out: Vec<String> = Vec::new();
    let mut i: usize = 0;
    while i < v.len()
        invariant
            i <= v.len(),
            names == byte_texts(v@),
            out.len() == i,
            texts(out@) == decoded(names).take(i as int),
            first_invalid(names, i as int) == first_invalid(names, 0),
        decreases v.len() - i,
    {
        assert(names[i as int] == v@[i as int]@);
        let copy = v[i].clone();
        assert(copy@ =~= v@[i as int]@);
        match string_from_utf8(copy) {
            Some(s) => {
                out.push(s);
                assert(texts(out@) =~= decoded(names).take(i + 1));
            },
            None => {
                let mut m = "path is not valid UTF-8: ".to_owned();
                m.append(string_from_utf8_lossy(v[i].as_slice()).as_str());
                return Err(m);
            },
        }
        i += 1;
    }
    assert(decoded(names).take(v.len() as int) =~= decoded(names));
    Ok(out)
}

/// Parse `content` as a depfile.
pub fn parse_depfile(content: &[u8]) -> (r: Result<Depfile, String>)
    ensures
        match (r, depfile_of(content@)) {
            (Ok(d), Ok(w)) => texts(d.outs@) == w.0 && texts(d.ins@) == w.1,
            (Err(e), Err(m)) => e@ == m,
            _ => false,
        },
{
    let n: usize = content.len();
    let mut outs: Vec<Vec<u8>> = Vec::new();
    let mut ins: Vec<Vec<u8>> = Vec::new();
    let mut have_target: bool = false;
    let mut targets: bool = true;
    let mut poisoned: bool = false;
    let mut empty: bool = true;
    let mut i: usize = 0;
    let ghost c = content@;
    let ghost mut r = nothing_read();
    assert(byte_texts(outs@) =~= Seq::empty());
    assert(byte_texts(ins@) =~= Seq::empty());
    while i < n
        invariant
            n == content@.len(),
            c == content@,
            i <= n,
            r == (Reading {
                outs: byte_texts(outs@),
                ins: byte_texts(ins@),
                have_target,
                targets,
                poisoned,
                empty,
            }),
            read_from(c, i as int, r) == read_from(c, 0, nothing_read()),
        decreases n - i,
    {
        let ghost p = name_at(c, i as int);
        let ghost from = i as int;
        let mut buf: Vec<u8> = Vec::new();
        let mut newline: bool = false;
        let mut ended: bool = false;
        proof {
            lemma_name_advances(c, from);
            assert(buf@ + p.text =~= p.text);
        }
        while i < n && !ended
            invariant
                n == content@.len(),
                c == content@,
                from <= i <= n,
                p == name_at(c, from),
                ended ==> buf@ == p.text && i == p.next && newline == p.newline,
                !ended ==> !newline && ({
                    let rest = name_at(c, i as int);
                    &&& buf@ + rest.text == p.text
                    &&& rest.next == p.next
                    &&& rest.newline == p.newline
                }),
            decreases n - i, if ended { 0int } else { 1int },
        {
            let ghost before = buf@;
            let ghost here = i as int;
            proof {
                lemma_piece_advances(c, here);
            }
            let (next, ends, line) = read_piece(content, i, &mut buf);
            i = next;
            ended = ends;
            newline = line;
            proof {
                let q = piece_at(c, here);
                if !ends {
                    assert(!q.newline);
                    assert(buf@ + name_at(c, i as int).text =~= before + name_at(c, here).text);
                }
            }
        }
        assert(buf@ =~= p.text);
        assert(i == p.next);
        let dependency: bool = !targets;
        let ghost colon = p.text.len() > 0 && p.text.last() == 58;
        if buf.len() > 0 && buf[buf.len() - 1] == 58 {
            buf.pop();
            targets = false;
            have_target = true;
        }
        assert(buf@ =~= without_colon(p.text));
        let ghost name = buf@;
        let ghost outs0 = byte_texts(outs@);
        let ghost ins0 = byte_texts(ins@);
        if buf.len() > 0 {
            empty = false;
            if contains_name(&ins, &buf) {
                if !dependency {
                    poisoned = true;
                }
            } else if dependency {
                if poisoned {
                    assert(after_name(r, p) is None);
                    return Err("inputs may not also have inputs".to_owned());
                }
                ins.push(buf);
                assert(byte_texts(ins@) =~= ins0.push(name));
            } else if !contains_name(&outs, &buf) {
                outs.push(buf);
                assert(byte_texts(outs@) =~= outs0.push(name));
            }
        }
        if newline {
            targets = true;
            poisoned = false;
        }
        proof {
            r = after_name(r, p)->0;
        }
    }
    if !have_target && !empty {
        return Err("expected ':' in depfile".to_owned());
    }
    match to_strings(outs) {
        Err(e) => Err(e),
        Ok(o) => match to_strings(ins) {
            Err(e) => Err(e),
            Ok(s) => Ok(Depfile { outs: o, ins: s }),
        },
    }
}

/// Neither list of a depfile names a path twice.
pub proof fn law_names_are_distinct(c: Seq<u8>, i: int, r: Reading)
    requires
        r.outs.no_duplicates(),
        r.ins.no_duplicates(),
        0 <= i <= c.len(),
    ensures
        read_from(c, i, r) matches Some(n) ==> n.outs.no_duplicates() && n.ins.no_duplicates(),
    decreases c.len() - i,
{
    if i < c.len() {
        lemma_name_advances(c, i);
        let p = name_at(c, i);
        if let Some(n) = after_name(r, p) {
            law_names_are_distinct(c, p.next, n);
        }
    }
}

/// The bytes that compilers write into a depfile as they are: everything that is
/// printed, but for the space, `#`, `$`, the backslash, and `*`, `;`, `<`, `>`,
/// `^`, the backquote and `|`, and everything beyond ASCII.
pub open spec fn is_written_plainly(b: u8) -> bool {
    ||| b >= 0x80
    ||| 33 <= b <= 126 && b != 35 && b != 36 && b != 42 && b != 59 && b != 60 && b != 62 && b != 92
        && b != 94 && b != 96 && b != 124
}

/// Whether a depfile can name a path: it is not empty, does not end in a colon,
/// and is made of bytes that are written plainly, spaces, `#` and `$`.
pub open spec fn can_be_named(name: Seq<u8>) -> bool {
    &&& name.len() > 0
    &&& name.last() != 58
    &&& forall|i: int| 0 <= i < name.len() ==> can_be_written(#[trigger] name[i])
}

/// Whether a byte can be written into a depfile.
pub open spec fn can_be_written(b: u8) -> bool {
    is_written_plainly(b) || b == 32 || b == 35 || b == 36
}

/// A byte of a path as compilers write it: a space and `#` behind a backslash,
/// `$` twice.
pub open spec fn byte_written(b: u8) -> Seq<u8> {
    if b == 32 || b == 35 {
        seq![92u8, b]
    } else if b == 36 {
        seq![36u8, 36u8]
    } else {
        seq![b]
    }
}

/// A path as compilers write it.
pub open spec fn name_written(name: Seq<u8>) -> Seq<u8>
    decreases name.len(),
{
    if name.len() == 0 {
        Seq::empty()
    } else {
        byte_written(name[0]) + name_written(name.drop_first())
    }
}

/// What stands before a path: nothing, or the end of a line that goes on and the
/// spaces that the next line starts with.
pub open spec fn lead_written(lead: Option<nat>) -> Seq<u8> {
    match lead {
        None => Seq::empty(),
        Some(n) => seq![92u8, 10u8] + repeated(32u8, n as int),
    }
}

/// The inputs from the `k`-th on as compilers write them, each behind its lead
/// and before a space, the last one before the end of the line.
pub open spec fn inputs_written(ins: Seq<Seq<u8>>, leads: Seq<Option<nat>>, k: int) -> Seq<u8>
    decreases ins.len() - k,
{
    if 0 <= k < ins.len() {
        lead_written(leads[k]) + name_written(ins[k]) + seq![
            if k == ins.len() - 1 {
                10u8
            } else {
                32u8
            },
        ] + inputs_written(ins, leads, k + 1)
    } else {
        Seq::empty()
    }
}

/// A depfile as compilers write it.
pub open spec fn depfile_written(out: Seq<u8>, ins: Seq<Seq<u8>>, leads: Seq<Option<nat>>) -> Seq<u8> {
    name_written(out.push(58)) + seq![
        if ins.len() == 0 {
            10u8
        } else {
            32u8
        },
    ] + inputs_written(ins, leads, 0)
}

/// Whether `part` stands in `c` at `i`.
spec fn stands_at(c: Seq<u8>, i: int, part: Seq<u8>) -> bool {
    &&& 0 <= i
    &&& i + part.len() <= c.len()
    &&& forall|k: int| 0 <= k < part.len() ==> c[i + k] == #[trigger] part[k]
}

proof fn lemma_stands(c: Seq<u8>, i: int, a: Seq<u8>, b: Seq<u8>)
    requires
        stands_at(c, i, a + b),
    ensures
        stands_at(c, i, a),
        stands_at(c, i + a.len(), b),
{
    assert forall|k: int| 0 <= k < a.len() implies c[i + k] == #[trigger] a[k] by {
        assert((a + b)[k] == a[k]);
    }
    assert forall|k: int| 0 <= k < b.len() implies c[i + a.len() + k] == #[trigger] b[k] by {
        assert((a + b)[a.len() + k] == b[k]);
    }
}

proof fn lemma_plain_step(c: Seq<u8>, i: int)
    requires
        0 <= i,
        i + 1 < c.len(),
        is_plain(c[i]),
    ensures
        ({
            let p = name_at(c, i);
            let q = name_at(c, i + 1);
            &&& p.text == seq![c[i]] + q.text
            &&& p.next == q.next
            &&& p.newline == q.newline
            &&& p.ends == q.ends
        }),
{
    lemma_piece_advances(c, i);
    lemma_piece_advances(c, i + 1);
    assert(plain()(c[i]));
    assert(scan(c, i, plain()) == scan(c, i + 1, plain()));
    let j = scan(c, i, plain());
    lemma_scan(c, i + 1, plain());
    let q = name_at(c, i + 1);
    if is_plain(c[i + 1]) {
        assert(plain()(c[i + 1]));
        let rest = name_at(c, j);
        assert(c.subrange(i, j) =~= seq![c[i]] + c.subrange(i + 1, j));
        assert(c.subrange(i, j) + rest.text =~= seq![c[i]] + (c.subrange(i + 1, j) + rest.text));
        assert(name_at(c, i).text == c.subrange(i, j) + rest.text);
        assert(q.text == c.subrange(i + 1, j) + rest.text);
    } else {
        assert(!plain()(c[i + 1]));
        assert(j == i + 1);
        assert(c.subrange(i, j) =~= seq![c[i]]);
    }
    lemma_name_ends(c, i + 1);
    lemma_name_ends(c, i);
}

proof fn lemma_name_ends(c: Seq<u8>, i: int)
    ensures
        name_at(c, i).ends,
{
}

proof fn lemma_name_read(c: Seq<u8>, i: int, name: Seq<u8>)
    requires
        stands_at(c, i, name_written(name)),
        forall|k: int| 0 <= k < name.len() ==> can_be_written(#[trigger] name[k]),
        i + name_written(name).len() < c.len(),
        c[i + name_written(name).len()] == 32 || c[i + name_written(name).len()] == 10,
    ensures
        ({
            let end = i + name_written(name).len();
            let p = name_at(c, i);
            &&& p.text == name
            &&& p.next == end + 1
            &&& p.newline == (c[end] == 10)
        }),
    decreases name.len(),
{
    let w = name_written(name);
    lemma_piece_advances(c, i);
    if name.len() == 0 {
        assert(name_at(c, i).text =~= name);
    } else {
        let b = name[0];
        let rest = name.drop_first();
        let first = byte_written(b);
        let after = name_written(rest);
        lemma_stands(c, i, first, after);
        assert(w.len() == first.len() + after.len());
        assert(can_be_written(name[0]));
        assert forall|k: int| 0 <= k < rest.len() implies can_be_written(#[trigger] rest[k]) by {
            assert(rest[k] == name[k + 1]);
        }
        lemma_name_read(c, i + first.len(), rest);
        assert(c[i] == first[0]);
        assert(name =~= seq![b] + rest);
        if first.len() == 1 {
            assert(is_plain(b));
            lemma_plain_step(c, i);
        } else {
            assert(c[i + 1] == first[1]);
            let p = piece_at(c, i);
            if b == 36 {
                assert(p.text == seq![36u8]);
            } else {
                assert(backslash()(c[i]));
                assert(!backslash()(c[i + 1]));
                assert(scan(c, i + 1, backslash()) == i + 1);
                assert(scan(c, i, backslash()) == i + 1);
                assert(repeated(92u8, 0) + seq![b] =~= seq![b]);
                assert(p.text =~= seq![b]);
            }
            assert(p.next == i + 2);
            assert(!p.ends);
        }
    }
}

proof fn lemma_nothing_named(r: Reading, p: Piece)
    requires
        p.text.len() == 0,
        !p.newline,
    ensures
        after_name(r, p) == Some(r),
{
}

proof fn lemma_spaces_read(c: Seq<u8>, i: int, n: nat, r: Reading)
    requires
        stands_at(c, i, repeated(32u8, n as int)),
    ensures
        read_from(c, i, r) == read_from(c, i + n, r),
    decreases n,
{
    if n > 0 {
        let v = repeated(32u8, n as int);
        assert(c[i + 0] == v[0]);
        lemma_piece_advances(c, i);
        let p = name_at(c, i);
        assert(p.next == i + 1);
        lemma_nothing_named(r, p);
        assert(stands_at(c, i + 1, repeated(32u8, n - 1))) by {
            let u = repeated(32u8, n - 1);
            assert forall|k: int| 0 <= k < u.len() implies c[i + 1 + k] == #[trigger] u[k] by {
                assert(c[i + (k + 1)] == v[k + 1]);
            }
        }
        lemma_spaces_read(c, i + 1, (n - 1) as nat, r);
    }
}

proof fn lemma_lead_read(c: Seq<u8>, i: int, lead: Option<nat>, r: Reading)
    requires
        stands_at(c, i, lead_written(lead)),
    ensures
        read_from(c, i, r) == read_from(c, i + lead_written(lead).len(), r),
{
    if let Some(n) = lead {
        let v = lead_written(lead);
        lemma_stands(c, i, seq![92u8, 10u8], repeated(32u8, n as int));
        assert(c[i + 0] == v[0]);
        assert(c[i + 1] == v[1]);
        assert(backslash()(c[i]));
        assert(!backslash()(c[i + 1]));
        assert(scan(c, i + 1, backslash()) == i + 1);
        assert(scan(c, i, backslash()) == i + 1);
        lemma_piece_advances(c, i);
        let p = name_at(c, i);
        assert(p.next == i + 2);
        lemma_nothing_named(r, p);
        lemma_spaces_read(c, i + 2, n, r);
    }
}

proof fn lemma_inputs_read(
    c: Seq<u8>,
    i: int,
    ins: Seq<Seq<u8>>,
    leads: Seq<Option<nat>>,
    k: int,
    r: Reading,
)
    requires
        0 <= k < ins.len(),
        leads.len() == ins.len(),
        ins.no_duplicates(),
        forall|j: int| 0 <= j < ins.len() ==> can_be_named(#[trigger] ins[j]),
        stands_at(c, i, inputs_written(ins, leads, k)),
        i + inputs_written(ins, leads, k).len() == c.len(),
        r.ins == ins.take(k),
        !r.targets,
        !r.poisoned,
        r.have_target,
        !r.empty,
    ensures
        read_from(c, i, r) matches Some(n) && n.ins == ins && n.outs == r.outs && n.have_target
            && !n.empty,
    decreases ins.len() - k,
{
    let lead = lead_written(leads[k]);
    let name = name_written(ins[k]);
    let last = k == ins.len() - 1;
    let end = seq![
        if last {
            10u8
        } else {
            32u8
        },
    ];
    let rest = inputs_written(ins, leads, k + 1);
    let whole = inputs_written(ins, leads, k);
    assert(whole =~= lead + (name + (end + rest)));
    lemma_stands(c, i, lead, name + (end + rest));
    let at = i + lead.len();
    lemma_stands(c, at, name, end + rest);
    let stop = at + name.len();
    lemma_stands(c, stop, end, rest);
    lemma_lead_read(c, i, leads[k], r);
    assert(c[stop + 0] == end[0]);
    assert(can_be_named(ins[k]));
    lemma_name_read(c, at, ins[k]);
    lemma_name_advances(c, at);
    let p = name_at(c, at);
    assert(!r.ins.contains(ins[k])) by {
        if r.ins.contains(ins[k]) {
            let j = choose|j: int| 0 <= j < r.ins.len() && r.ins[j] == ins[k];
            assert(ins[j] == ins[k]);
        }
    }
    let n = after_name(r, p)->0;
    assert(n.ins =~= ins.take(k + 1));
    assert(read_from(c, at, r) == read_from(c, stop + 1, n));
    if last {
        assert(rest.len() == 0);
        assert(n.ins =~= ins);
    } else {
        lemma_inputs_read(c, stop + 1, ins, leads, k + 1, n);
    }
}

proof fn lemma_all_valid(names: Seq<Seq<u8>>, k: int)
    requires
        0 <= k <= names.len(),
        forall|j: int| 0 <= j < names.len() ==> valid_utf8(#[trigger] names[j]),
    ensures
        first_invalid(names, k) == names.len(),
    decreases names.len() - k,
{
    if k < names.len() {
        lemma_all_valid(names, k + 1);
    }
}

/// A depfile is read as what the compiler wrote: the output it names, and the
/// inputs in order, whatever characters their names hold that a depfile can
/// name, and wherever its lines are broken.
pub proof fn law_depfiles_read_back(out: Seq<u8>, ins: Seq<Seq<u8>>, leads: Seq<Option<nat>>)
    requires
        leads.len() == ins.len(),
        ins.no_duplicates(),
        can_be_named(out),
        valid_utf8(out),
        forall|j: int|
            0 <= j < ins.len() ==> can_be_named(#[trigger] ins[j]) && valid_utf8(ins[j]),
    ensures
        depfile_of(depfile_written(out, ins, leads)) == Ok::<
            (Seq<Seq<char>>, Seq<Seq<char>>),
            Seq<char>,
        >((seq![decode_utf8(out)], Seq::new(ins.len(), |j: int| decode_utf8(ins[j])))),
{
    let c = depfile_written(out, ins, leads);
    let target = out.push(58);
    let name = name_written(target);
    let end = seq![
        if ins.len() == 0 {
            10u8
        } else {
            32u8
        },
    ];
    let rest = inputs_written(ins, leads, 0);
    assert(c =~= name + (end + rest));
    assert(stands_at(c, 0, name + (end + rest)));
    lemma_stands(c, 0, name, end + rest);
    let stop = name.len() as int;
    lemma_stands(c, stop, end, rest);
    assert(c[stop + 0] == end[0]);
    assert forall|k: int| 0 <= k < target.len() implies can_be_written(#[trigger] target[k]) by {
        if k < out.len() {
            assert(target[k] == out[k]);
        }
    }
    lemma_name_read(c, 0, target);
    lemma_name_advances(c, 0);
    let p = name_at(c, 0);
    let r0 = nothing_read();
    assert(without_colon(p.text) =~= out);
    let r = after_name(r0, p)->0;
    assert(r.outs =~= seq![out]);
    assert(read_from(c, 0, r0) == read_from(c, stop + 1, r));
    if ins.len() > 0 {
        assert(r.ins =~= ins.take(0));
        lemma_inputs_read(c, stop + 1, ins, leads, 0, r);
    } else {
        assert(rest.len() == 0);
        assert(r.ins =~= ins);
    }
    let done = read_from(c, 0, r0)->0;
    assert(done.outs[0] == out);
    lemma_all_valid(done.outs, 0);
    lemma_all_valid(done.ins, 0);
    assert(decoded(done.outs) =~= seq![decode_utf8(out)]);
    assert(decoded(done.ins) =~= Seq::new(ins.len(), |j: int| decode_utf8(ins[j])));
}

} // verus!
