//! Paths, escaping, hashing, versions and other small pieces.

use std::hash::{BuildHasher, Hasher};

use shuriken::canon::{
    canonicalize_bytes, canonicalize_path, canonicalized, decanonicalize, dir_name,
};
use shuriken::depfile::{parse_depfile, Depfile};
use shuriken::escape::{
    append_shell_escaped, append_win32_escaped, elide_middle_in_place, encode_json_string,
    escaped_for_host, strip_ansi_escape_codes,
};
use shuriken::hash::{hash_command, rapidhash, FxBuildHasher, FxHashMap, FxHashSet, FxHasher};
use shuriken::msvc::parse_show_includes;
use shuriken::text::{parse_leading_int, push_decimal, push_hexadecimal, push_signed};
use shuriken::util::{edit_distance, format_mtime, guess_parallelism, spellcheck};
use shuriken::version::{check_required_version, parse_version};

fn canon(s: &str) -> String {
    let mut p = s.to_string();
    canonicalize_path(&mut p);
    p
}

#[test]
fn basics() {
    assert_eq!(canon("foo.h"), "foo.h");
    assert_eq!(canon("./foo.h"), "foo.h");
    assert_eq!(canon("./foo/./bar.h"), "foo/bar.h");
    assert_eq!(canon("./x/foo/../bar.h"), "x/bar.h");
    assert_eq!(canon("./x/foo/../../bar.h"), "bar.h");
    assert_eq!(canon("foo//bar"), "foo/bar");
    assert_eq!(canon("foo//.//..///bar"), "bar");
    assert_eq!(canon("./x/../foo/../../bar.h"), "../bar.h");
    assert_eq!(canon("foo/./."), "foo");
    assert_eq!(canon("foo/bar/.."), "foo");
    assert_eq!(canon("foo/.hidden_bar"), "foo/.hidden_bar");
    assert_eq!(canon("/foo"), "/foo");
    assert_eq!(canon("//foo"), "/foo");
    assert_eq!(canon("/"), "/");
    assert_eq!(canon("aa/.."), ".");
    assert_eq!(canon(".."), "..");
    assert_eq!(canon("../"), "..");
    assert_eq!(canon("../foo"), "../foo");
    assert_eq!(canon("a/b/c/d/e/../../../../f"), "a/f");
    assert_eq!(canon("./"), ".");
    assert_eq!(canon("."), ".");
    assert_eq!(canon(""), "");
}

#[test]
fn dirnames() {
    assert_eq!(dir_name("foo.c"), "");
    assert_eq!(dir_name("a/b/c.c"), "a/b");
    assert_eq!(dir_name("/a/b.c"), "/a");
    assert_eq!(dir_name("/b.c"), "");
    assert_eq!(dir_name("a//b.c"), "a");
}

#[test]
fn canonical_paths_are_left_alone_and_never_grow() {
    for p in ["a/../../b", "./x//y/", "../..", "/..", "/../a", "a/b/../..", "ä/./ö", "..."] {
        let once = canon(p);
        assert_eq!(canon(&once), once, "{p}");
        assert!(once.len() <= p.len(), "{p}");
    }
    assert_eq!(canon("/.."), "/..");
    assert_eq!(canon("ä/./ö"), "ä/ö");
}

#[test]
fn canonicalizing_bytes_agrees_with_text() {
    for p in ["./a/../b//c", "", "/", "x/../..", "ü/.."] {
        let mut v = p.as_bytes().to_vec();
        let bits = canonicalize_bytes(&mut v);
        assert_eq!(bits, 0);
        assert_eq!(v, canon(p).into_bytes());
        assert_eq!(canonicalized(p), (canon(p), 0));
    }
    assert_eq!(decanonicalize("a/b", 0), "a/b");
    assert_eq!(decanonicalize("a/b", u64::MAX), "a/b");
}

fn parse(s: &str) -> Depfile {
    parse_depfile(s.as_bytes()).unwrap()
}

#[test]
fn basic() {
    let d = parse("build/ninja.o: ninja.cc ninja.h eval_env.h manifest_parser.h\n");
    assert_eq!(d.outs, vec!["build/ninja.o"]);
    assert_eq!(d.ins, vec!["ninja.cc", "ninja.h", "eval_env.h", "manifest_parser.h"]);
}

#[test]
fn early_newline_and_continuations() {
    let d = parse("foo.o: \\\n  bar.h \\\n  baz.h\n");
    assert_eq!(d.outs, vec!["foo.o"]);
    assert_eq!(d.ins, vec!["bar.h", "baz.h"]);
}

#[test]
fn escaped_spaces() {
    let d = parse("a\\ b.o: c\\ d.h\n");
    assert_eq!(d.outs, vec!["a b.o"]);
    assert_eq!(d.ins, vec!["c d.h"]);
}

#[test]
fn even_backslashes_end_filename() {
    // 2 backslashes then a space: two backslashes, filename ends.
    let d = parse("a: x\\\\ y\n");
    assert_eq!(d.ins, vec!["x\\\\", "y"]);
}

#[test]
fn escaped_hash_and_dollar() {
    let d = parse("a: b\\#c d$$e\n");
    assert_eq!(d.ins, vec!["b#c", "d$e"]);
}

#[test]
fn escaped_colon() {
    let d = parse("a: c\\:\\\\foo.h\n");
    assert_eq!(d.ins, vec!["c:\\\\foo.h"]);
}

#[test]
fn windows_drive_letters() {
    let d = parse("c:\\a\\b.o: c:\\a\\b.cc\n");
    assert_eq!(d.outs, vec!["c:\\a\\b.o"]);
    assert_eq!(d.ins, vec!["c:\\a\\b.cc"]);
}

#[test]
fn backslash_colon_whitespace_is_literal() {
    // "\:" followed by whitespace is literal text, and the trailing colon
    // still terminates the target list.
    let d = parse("foo\\: bar\n");
    assert_eq!(d.outs, vec!["foo\\"]);
    assert_eq!(d.ins, vec!["bar"]);
}

#[test]
fn duplicates_are_dropped() {
    let d = parse("a: b b c\n");
    assert_eq!(d.ins, vec!["b", "c"]);
}

#[test]
fn multiple_outputs() {
    let d = parse("a b: c\n");
    assert_eq!(d.outs, vec!["a", "b"]);
    assert_eq!(d.ins, vec!["c"]);
}

#[test]
fn multiple_rules() {
    let d = parse("a: b\nc: d\n");
    assert_eq!(d.outs, vec!["a", "c"]);
    assert_eq!(d.ins, vec!["b", "d"]);
}

#[test]
fn empty_is_ok() {
    assert_eq!(parse(""), Depfile::default());
    assert_eq!(parse("\n"), Depfile::default());
}

#[test]
fn missing_colon_is_an_error() {
    let e = parse_depfile(b"foo.o foo.c\n").unwrap_err();
    assert_eq!(e, "expected ':' in depfile");
}

#[test]
fn input_as_target_is_rejected() {
    let e = parse_depfile(b"a: b\nb: c\nc: d\na: b\nb: e\n").unwrap_err();
    assert_eq!(e, "inputs may not also have inputs");
}

#[test]
fn crlf() {
    let d = parse("a.o: a.c\r\nb.o: b.c\r\n");
    assert_eq!(d.outs, vec!["a.o", "b.o"]);
    assert_eq!(d.ins, vec!["a.c", "b.c"]);
}

#[test]
fn no_trailing_newline() {
    let d = parse("a.o: a.c");
    assert_eq!(d.outs, vec!["a.o"]);
    assert_eq!(d.ins, vec!["a.c"]);
}

fn sh(s: &str) -> String {
    let mut out = String::new();
    append_shell_escaped(s, &mut out);
    out
}

#[test]
fn shell_escaping() {
    // The empty string is left alone: it has no unsafe characters.
    assert_eq!(sh(""), "");
    assert_eq!(sh("plain"), "plain");
    assert_eq!(sh("/usr/bin/gcc-9.2"), "/usr/bin/gcc-9.2");
    assert_eq!(sh("with space"), "'with space'");
    assert_eq!(sh("hi'there"), "'hi'\\''there'");
    assert_eq!(sh("$PATH"), "'$PATH'");
    assert_eq!(escaped_for_host("a b"), "'a b'");
}

#[test]
fn win32_escaping() {
    let mut out = String::new();
    append_win32_escaped("plain", &mut out);
    assert_eq!(out, "plain");
    out.clear();
    append_win32_escaped(r"a b", &mut out);
    assert_eq!(out, r#""a b""#);
    out.clear();
    append_win32_escaped(r#"a"b"#, &mut out);
    assert_eq!(out, r#""a\"b""#);
    out.clear();
    append_win32_escaped(r#"a\"#, &mut out);
    assert_eq!(out, r#"a\"#);
    out.clear();
    append_win32_escaped(r#"a b\"#, &mut out);
    assert_eq!(out, r#""a b\\""#);
}

#[test]
fn elide() {
    let mut s = "hello".to_string();
    elide_middle_in_place(&mut s, 10);
    assert_eq!(s, "hello");

    let mut s = "0123456789".to_string();
    elide_middle_in_place(&mut s, 7);
    assert_eq!(s, "01...89");

    let mut s = "0123456789".to_string();
    elide_middle_in_place(&mut s, 3);
    assert_eq!(s, "...");

    let mut s = "0123456789".to_string();
    elide_middle_in_place(&mut s, 1);
    assert_eq!(s, ".");
}

#[test]
fn elide_keeps_color() {
    let mut s = "\x1b[31m0123456789\x1b[0m".to_string();
    elide_middle_in_place(&mut s, 7);
    assert!(s.starts_with("\x1b[31m"));
    assert!(s.ends_with("\x1b[0m"));
    assert!(s.contains("..."));
}

#[test]
fn strip_ansi() {
    assert_eq!(strip_ansi_escape_codes("\x1b[31mred\x1b[0m"), "red");
    assert_eq!(strip_ansi_escape_codes("plain"), "plain");
}

#[test]
fn json() {
    assert_eq!(encode_json_string("a\"b\\c\nd"), "a\\\"b\\\\c\\nd");
    assert_eq!(encode_json_string("\u{1}"), "\\u0001");
}

#[test]
fn matches_ninja_recorded_hash() {
    // Captured from ninja 1.13.2's .ninja_log for this exact command.
    let cmd = r#"cp a.txt b.txt && printf "b.txt: a.txt extra.h\n" > b.txt.d"#;
    assert_eq!(format!("{:016x}", hash_command(cmd)), "c5838a4b554d43e9");
}

#[test]
fn fx_hasher_spreads_similar_keys() {
    // Keys that differ only in a suffix must land in different buckets:
    // this is what a manifest full of "out1234"-style paths looks like.
    let build = FxBuildHasher;
    let mut low_bits = std::collections::HashSet::new();
    for i in 0..4096u32 {
        let key = format!("out{i}");
        low_bits.insert(build.hash_one(&key) & 0xfff);
    }
    // A perfect spread would be 4096 distinct values; random hashing gives
    // about 63% of that. Anything much below signals a degenerate hasher.
    assert!(low_bits.len() > 2200, "only {} distinct buckets", low_bits.len());
}

#[test]
fn hashes_all_length_classes() {
    // Just exercise every branch; a recorded value is pinned above.
    for n in 0..200 {
        let s: String = std::iter::repeat('x').take(n).collect();
        let _ = hash_command(&s);
    }
}

#[test]
fn hash_of_a_command_is_that_of_its_bytes() {
    assert_eq!(hash_command("cat in > out"), rapidhash(b"cat in > out"));
    assert_ne!(hash_command("cat in > out"), hash_command("cat in >out"));
}

#[test]
fn filters_include_notes() {
    let output = "foo.cc\r\n\
                  Note: including file: c:\\foo\\bar.h\r\n\
                  warning: something\r\n";
    let r = parse_show_includes(output, "");
    assert_eq!(r.includes, vec!["c:\\foo\\bar.h"]);
    assert_eq!(r.filtered_output, "warning: something\n");
}

#[test]
fn custom_prefix() {
    let output = "Hinweis: Einlesen der Datei: a.h\n";
    let r = parse_show_includes(output, "Hinweis: Einlesen der Datei: ");
    assert_eq!(r.includes, vec!["a.h"]);
    assert!(r.filtered_output.is_empty());
}

#[test]
fn drops_system_includes() {
    let output = "Note: including file: C:\\Program Files\\x\\y.h\n\
                  Note: including file: mine.h\n";
    let r = parse_show_includes(output, "");
    assert_eq!(r.includes, vec!["mine.h"]);
}

#[test]
fn deduplicates() {
    let output = "Note: including file: a.h\nNote: including file: a.h\n";
    let r = parse_show_includes(output, "");
    assert_eq!(r.includes, vec!["a.h"]);
}

#[test]
fn blank_lines_of_output_are_kept() {
    let r = parse_show_includes("a\n\nb\n", "");
    assert!(r.includes.is_empty());
    assert_eq!(r.filtered_output, "a\n\nb\n");
    // What stands between `\r` and `\n` is no line.
    let r = parse_show_includes("a\r\n\r\nb\r\n", "");
    assert_eq!(r.filtered_output, "a\n\nb\n");
    // A line may end with `\r` alone, and the last one with nothing.
    let r = parse_show_includes("a\rNote: including file: x.h\n\nb", "");
    assert_eq!(r.includes, vec!["x.h"]);
    assert_eq!(r.filtered_output, "a\n\nb\n");
}

#[test]
fn distances() {
    assert_eq!(edit_distance("", "", true, 0), 0);
    assert_eq!(edit_distance("", "a", true, 0), 1);
    assert_eq!(edit_distance("kitten", "sitting", true, 0), 3);
    assert_eq!(edit_distance("kitten", "sitting", false, 0), 5);
    // Early cutoff.
    assert_eq!(edit_distance("abcdefg", "xyz", true, 2), 3);
}

#[test]
fn suggestions() {
    assert_eq!(spellcheck("targts", &["targets", "rules"]), Some("targets"));
    assert_eq!(spellcheck("zzzzzzzz", &["targets", "rules"]), None);
}

#[test]
fn versions() {
    assert_eq!(parse_version("1.13.2"), (1, 13));
    assert_eq!(parse_version("2"), (2, 0));
    assert_eq!(parse_version(""), (0, 0));
}

#[test]
fn required_version() {
    assert!(check_required_version("1.13").unwrap().is_none());
    assert!(check_required_version("0.9").unwrap().is_some());
    assert!(check_required_version("2.0").is_err());
    assert!(check_required_version("1.99").is_err());
}

#[test]
fn atoi_like() {
    assert_eq!(parse_leading_int("12"), 12);
    assert_eq!(parse_leading_int("12abc"), 12);
    assert_eq!(parse_leading_int("abc"), 0);
    assert_eq!(parse_leading_int("-3"), -3);
    assert_eq!(parse_leading_int(""), 0);
}

#[test]
fn numbers_are_written_as_usual() {
    let mut s = String::new();
    push_decimal(&mut s, 0);
    s.push(' ');
    push_decimal(&mut s, u64::MAX as u128);
    s.push(' ');
    push_signed(&mut s, i64::MIN);
    s.push(' ');
    push_hexadecimal(&mut s, 0xabc0);
    assert_eq!(s, "0 18446744073709551615 -9223372036854775808 abc0");
}

#[test]
fn small_helpers() {
    assert_eq!(guess_parallelism(1), 2);
    assert_eq!(guess_parallelism(2), 3);
    assert_eq!(guess_parallelism(8), 10);
    assert_eq!(format_mtime(0), "0");
}

#[test]
fn fx_hashes_are_what_they_are() {
    let mut h = FxBuildHasher.build_hasher();
    h.write_u8(1);
    assert_eq!(h.finish(), 0x2c85_34a8_fe84_0a2e);

    let mut h = FxHasher::default();
    assert_eq!(h.finish(), 0);
    h.write(b"0123456789");
    assert_eq!(h.finish(), 0xd597_b931_04cc_1f55);

    let mut h = FxBuildHasher::default().build_hasher();
    h.write_u8(7);
    h.write_usize(300);
    assert_eq!(h.finish(), 0x4d01_36d8_02f9_b44d);
}

#[test]
fn fx_maps_and_sets() {
    let mut map: FxHashMap<String, u32> = FxHashMap::default();
    map.insert("out".to_string(), 1);
    map.insert("out".to_string(), 2);
    assert_eq!(map.get("out"), Some(&2));
    let set: FxHashSet<u32> = [3, 4, 3].into_iter().collect();
    assert_eq!(set.len(), 2);
}

#[test]
fn no_distance_is_above_the_greatest_limit() {
    assert_eq!(edit_distance("kitten", "sitting", true, usize::MAX), 3);
    assert_eq!(edit_distance("kitten", "sitting", false, usize::MAX), 5);
}
