//! The command line of the `shuriken` tool.
//!
//! Nothing is printed here: what there is to say is part of the result.

use vstd::prelude::*;
use vstd::string::*;

use crate::build::BuildConfig;
use crate::msvc::lowered;
use crate::parse::quoted;
use crate::status::Verbosity;
use crate::text::{chars_of, parse_whole, push_decimal, str_eq, string_of};
use crate::util::spellcheck;
use crate::version::{NINJA_COMPAT_VERSION, SHURIKEN_VERSION};

pub mod outcome;
pub mod request;
pub mod run;

verus! {

use crate::build::default_config;
use crate::msvc::lower;
use crate::text::{all_digits, decimal, digits, lemma_scan, scan, texts, whole_number};
use crate::util::{lemma_suggested, suggested, word_bytes};
use vstd::utf8::encode_utf8;

/// The name of the tool.
pub const PROGRAM: &'static str = "shuriken";

/// What the command line asks for.
pub struct Options {
    /// The manifest (`-f`).
    pub input_file: String,
    /// Where to go first (`-C`).
    pub working_dir: Option<String>,
    /// The subtool to run (`-t`).
    pub tool: Option<String>,
    /// The arguments of the subtool.
    pub tool_args: Vec<String>,
    /// The targets to build.
    pub targets: Vec<String>,
    /// Whether a phony build statement may not reference itself (`-w`).
    pub phony_cycle_should_err: bool,
    /// Whether to tell where the time went (`-d stats`).
    pub stats: bool,
    /// The load average that keeps new jobs from starting (`-l`), a number as
    /// it was written.
    pub load_limit: Option<String>,
}

/// [`Options`] by what they hold.
#[verifier::ext_equal]
pub struct OptionsView {
    pub input_file: Seq<char>,
    pub working_dir: Option<Seq<char>>,
    pub tool: Option<Seq<char>>,
    pub tool_args: Seq<Seq<char>>,
    pub targets: Seq<Seq<char>>,
    pub phony_cycle_should_err: bool,
    pub stats: bool,
    pub load_limit: Option<Seq<char>>,
}

/// What an optional text holds.
pub open spec fn optional(t: Option<String>) -> Option<Seq<char>> {
    match t {
        Some(t) => Some(t@),
        None => None,
    }
}

impl View for Options {
    type V = OptionsView;

    open spec fn view(&self) -> OptionsView {
        OptionsView {
            input_file: self.input_file@,
            working_dir: optional(self.working_dir),
            tool: optional(self.tool),
            tool_args: texts(self.tool_args@),
            targets: texts(self.targets@),
            phony_cycle_should_err: self.phony_cycle_should_err,
            stats: self.stats,
            load_limit: optional(self.load_limit),
        }
    }
}

/// What has been read of the command line so far.
pub struct CommandLine {
    pub options: Options,
    pub config: BuildConfig,
    /// Whether `-j` was given.
    pub jobs_given: bool,
    /// What is to be printed.
    pub out: String,
    /// What is to be printed to the error stream.
    pub err: String,
}

/// A [`CommandLine`] by what it holds.
#[verifier::ext_equal]
pub struct LineView {
    pub options: OptionsView,
    pub config: BuildConfig,
    pub jobs_given: bool,
    pub out: Seq<char>,
    pub err: Seq<char>,
}

impl View for CommandLine {
    type V = LineView;

    open spec fn view(&self) -> LineView {
        LineView {
            options: self.options@,
            config: self.config,
            jobs_given: self.jobs_given,
            out: self.out@,
            err: self.err@,
        }
    }
}

/// Whether reading goes on, or the tool exits with a code.
pub enum Reading {
    More(LineView),
    Exit(u8, LineView),
}

/// How to use the tool.
pub open spec fn usage_text(parallelism: usize) -> Seq<char> {
    "usage: shuriken [options] [targets...]\n\nif targets are unspecified, builds the 'default' target (see manual).\n\noptions:\n  --version      print version (\""@
        + SHURIKEN_VERSION@ + "\", ninja-compatible "@ + NINJA_COMPAT_VERSION@
        + "\")\n  -v, --verbose  show all command lines while building\n  --quiet        don't show progress status, just command output\n\n  -C DIR   change to DIR before doing anything else\n  -f FILE  specify input build file [default=build.ninja]\n\n  -j N     run N jobs in parallel (0 means infinity) [default="@
        + decimal(parallelism as nat)
        + " on this system]\n  -k N     keep going until N jobs fail (0 means infinity) [default=1]\n  -l N     do not start new jobs if the load average is greater than N\n  -n       dry run (don't run commands but act like they succeeded)\n\n  -d MODE  enable debugging (use '-d list' to list modes)\n  -t TOOL  run a subtool (use '-t list' to list subtools)\n    terminates toplevel options; further flags are passed to the tool\n  -w FLAG  adjust warnings (use '-w list' to list warnings)\n"@
}

/// How to use the tool, when it runs so many jobs in parallel by default.
pub fn usage(parallelism: usize) -> (r: String)
    ensures
        r@ == usage_text(parallelism),
{
    let mut out: String =
        "usage: shuriken [options] [targets...]\n\nif targets are unspecified, builds the 'default' target (see manual).\n\noptions:\n  --version      print version (\"".to_owned();
    out.append(SHURIKEN_VERSION);
    out.append("\", ninja-compatible ");
    out.append(NINJA_COMPAT_VERSION);
    out.append(
        "\")\n  -v, --verbose  show all command lines while building\n  --quiet        don't show progress status, just command output\n\n  -C DIR   change to DIR before doing anything else\n  -f FILE  specify input build file [default=build.ninja]\n\n  -j N     run N jobs in parallel (0 means infinity) [default=",
    );
    push_decimal(&mut out, parallelism as u128);
    out.append(
        " on this system]\n  -k N     keep going until N jobs fail (0 means infinity) [default=1]\n  -l N     do not start new jobs if the load average is greater than N\n  -n       dry run (don't run commands but act like they succeeded)\n\n  -d MODE  enable debugging (use '-d list' to list modes)\n  -t TOOL  run a subtool (use '-t list' to list subtools)\n    terminates toplevel options; further flags are passed to the tool\n  -w FLAG  adjust warnings (use '-w list' to list warnings)\n",
    );
    out
}

/// The names of the subtools.
pub open spec fn known_tools() -> Seq<&'static str> {
    seq![
        "clean",
        "cleandead",
        "commands",
        "compdb",
        "compdb-targets",
        "deps",
        "graph",
        "inputs",
        "missingdeps",
        "multi-inputs",
        "query",
        "recompact",
        "restat",
        "rules",
        "targets",
    ]
}

/// The names of the subtools.
pub fn tool_names() -> (r: Vec<&'static str>)
    ensures
        r@ == known_tools(),
{
    let r: Vec<&'static str> = vec![
        "clean",
        "cleandead",
        "commands",
        "compdb",
        "compdb-targets",
        "deps",
        "graph",
        "inputs",
        "missingdeps",
        "multi-inputs",
        "query",
        "recompact",
        "restat",
        "rules",
        "targets",
    ];
    assert(r@ =~= known_tools());
    r
}

/// Whether a text is one of the words.
pub open spec fn is_one_of(t: Seq<char>, words: Seq<&str>) -> bool {
    exists|k: int| 0 <= k < words.len() && (#[trigger] words[k])@ == t
}

fn one_of(t: &str, words: &[&str]) -> (r: bool)
    ensures
        r == is_one_of(t@, words@),
{
    let mut k: usize = 0;
    while k < words.len()
        invariant
            k <= words@.len(),
            forall|j: int| 0 <= j < k ==> (#[trigger] words@[j])@ != t@,
        decreases words@.len() - k,
    {
        if str_eq(words[k], t) {
            return true;
        }
        k += 1;
    }
    false
}

/// The list of subtools.
pub open spec fn tool_list() -> Seq<char> {
    "shuriken subtools:\n        clean  clean built files\n    cleandead  clean built files that are no longer produced by the manifest\n     commands  list all commands required to rebuild given targets\n       compdb  dump JSON compilation database to stdout\ncompdb-targets  dump JSON compilation database for a given list of targets to stdout\n         deps  show dependencies stored in the deps log\n        graph  output graphviz dot file for targets\n       inputs  list all inputs required to rebuild given targets\n  missingdeps  check deps log dependencies on generated files\n multi-inputs  print one or more sets of inputs required to build targets\n        query  show inputs/outputs for a path\n    recompact  recompacts ninja-internal data structures\n       restat  restats all outputs in the build log\n        rules  list all rules\n      targets  list targets by their rule or depth in the DAG\n"@
}

/// The number in a text: digits, perhaps with a point among or beside them,
/// then perhaps an exponent.
pub open spec fn is_decimal_number(s: Seq<char>) -> bool {
    let a = scan(s, 0, digits());
    let pointed = a < s.len() && s[a] == '.';
    let b = if pointed {
        scan(s, a + 1, digits())
    } else {
        a
    };
    let some = a > 0 || (pointed && b > a + 1);
    let marked = b < s.len() && (s[b] == 'e' || s[b] == 'E');
    let c = if marked && b + 1 < s.len() && (s[b + 1] == '+' || s[b + 1] == '-') {
        b + 2
    } else {
        b + 1
    };
    some && (b == s.len() || (marked && c < s.len() && all_digits(s.skip(c))))
}

/// Whether a text in lower case is one of the words for numbers that digits
/// cannot write.
pub open spec fn is_number_word(s: Seq<char>) -> bool {
    let l = lower(s);
    l == "inf"@ || l == "infinity"@ || l == "nan"@
}

/// Whether a text is a floating-point number: a sign, perhaps, and then a
/// number or a word for one.
pub open spec fn is_float(s: Seq<char>) -> bool {
    let t = if s.len() > 0 && (s[0] == '+' || s[0] == '-') {
        s.skip(1)
    } else {
        s
    };
    is_decimal_number(t) || is_number_word(t)
}

fn skip_digits(v: &Vec<char>, from: usize) -> (r: usize)
    requires
        from <= v@.len(),
    ensures
        r == scan(v@, from as int, digits()),
        from <= r <= v@.len(),
{
    let mut k: usize = from;
    while k < v.len() && '0' <= v[k] && v[k] <= '9'
        invariant
            from <= k <= v@.len(),
            scan(v@, k as int, digits()) == scan(v@, from as int, digits()),
        decreases v@.len() - k,
    {
        k += 1;
    }
    k
}

fn decimal_number(v: &Vec<char>) -> (r: bool)
    ensures
        r == is_decimal_number(v@),
{
    let n: usize = v.len();
    let a: usize = skip_digits(v, 0);
    let pointed: bool = a < n && v[a] == '.';
    let b: usize = if pointed {
        skip_digits(v, a + 1)
    } else {
        a
    };
    let some: bool = a > 0 || (pointed && b > a + 1);
    if !some {
        return false;
    }
    if b == n {
        return true;
    }
    if v[b] != 'e' && v[b] != 'E' {
        return false;
    }
    let c: usize = if b + 1 < n && (v[b + 1] == '+' || v[b + 1] == '-') {
        b + 2
    } else {
        b + 1
    };
    if c >= n {
        return false;
    }
    let end: usize = skip_digits(v, c);
    proof {
        lemma_scan(v@, c as int, digits());
        let rest = v@.skip(c as int);
        if end == n {
            assert forall|i: int| 0 <= i < rest.len() implies '0' <= #[trigger] rest[i] <= '9' by {
                assert(digits()(v@[c + i]));
            }
        } else {
            assert(!digits()(v@[end as int]));
            assert(rest[end - c] == v@[end as int]);
        }
    }
    end == n
}

/// Whether a text is a floating-point number.
pub fn is_float_text(text: &str) -> (r: bool)
    ensures
        r == is_float(text@),
{
    let v = chars_of(text);
    let signed: bool = v.len() > 0 && (v[0] == '+' || v[0] == '-');
    let from: usize = if signed {
        1
    } else {
        0
    };
    let t = string_of(&v, from, v.len());
    let w = chars_of(t.as_str());
    proof {
        assert(v@.subrange(1, v@.len() as int) =~= v@.skip(1));
        assert(v@.subrange(0, v@.len() as int) =~= v@);
    }
    let lower = lowered(t.as_str());
    let word = string_of(&lower, 0, lower.len());
    assert(lower@.subrange(0, lower@.len() as int) =~= lower@);
    decimal_number(&w) || str_eq(word.as_str(), "inf") || str_eq(word.as_str(), "infinity")
        || str_eq(word.as_str(), "nan")
}

/// A complaint that is fatal.
pub open spec fn fatal_text(m: Seq<char>) -> Seq<char> {
    "shuriken: fatal: "@ + m + "\n"@
}

/// The complaint about an unknown name, with the word to use instead, if one is
/// close.
pub open spec fn unknown_text(what: Seq<char>, name: Seq<char>, words: Seq<&str>) -> Seq<char> {
    let complaint = "unknown "@ + what + " '"@ + name + "'"@;
    match suggested(word_bytes(words), encode_utf8(name)) {
        Some(k) => complaint + ", did you mean '"@ + words[k]@ + "'?"@,
        None => complaint,
    }
}

pub(crate) fn unknown(what: &str, name: &str, words: &[&str]) -> (r: String)
    ensures
        r@ == unknown_text(what@, name@, words@),
{
    let mut m: String = "unknown ".to_owned();
    m.append(what);
    m.append(" '");
    m.append(name);
    m.append("'");
    match spellcheck(name, words) {
        Some(w) => {
            proof {
                let ws = word_bytes(words@);
                let t = encode_utf8(name@);
                let k = choose|k: int|
                    #[trigger] crate::util::is_suggestion(ws, t, k) && w == words@[k];
                lemma_suggested(ws, t, k);
            }
            m.append(", did you mean '");
            m.append(w);
            m.append("'?");
        },
        None => {
            proof {
                lemma_suggested(word_bytes(words@), encode_utf8(name@), 0);
            }
        },
    }
    m
}

impl LineView {
    /// The line with more to be printed.
    pub open spec fn said(self, text: Seq<char>) -> LineView {
        LineView { out: self.out + text, ..self }
    }

    /// The line with more to be printed to the error stream.
    pub open spec fn complained(self, text: Seq<char>) -> LineView {
        LineView { err: self.err + text, ..self }
    }

    /// The end of reading with a complaint.
    pub open spec fn refused(self, text: Seq<char>) -> Reading {
        Reading::Exit(1, self.complained(text))
    }

    /// The end of reading with a complaint about an option that is not known.
    pub open spec fn unrecognized(self, option: Seq<char>) -> Reading {
        self.refused(
            "shuriken: unrecognized option '"@ + option + "'\n"@ + usage_text(
                self.config.parallelism,
            ),
        )
    }

    /// The line with a debugging mode enabled.
    pub open spec fn debugged(self, name: Seq<char>) -> Reading {
        if name == "list"@ {
            Reading::Exit(
                0,
                self.said(
                    "debugging modes:\n  stats        print operation counts/timing info\n  explain      explain what caused a command to execute\n  keepdepfile  don't delete depfiles after they're read\n  keeprsp      don't delete @response files on success\nmultiple modes can be enabled via -d FOO -d BAR\n"@,
                ),
            )
        } else if name == "stats"@ {
            Reading::More(
                LineView { options: OptionsView { stats: true, ..self.options }, ..self },
            )
        } else if name == "explain"@ {
            Reading::More(
                LineView { config: BuildConfig { explain: true, ..self.config }, ..self },
            )
        } else if name == "keepdepfile"@ {
            Reading::More(
                LineView { config: BuildConfig { keep_depfile: true, ..self.config }, ..self },
            )
        } else if name == "keeprsp"@ {
            Reading::More(
                LineView { config: BuildConfig { keep_rsp: true, ..self.config }, ..self },
            )
        } else {
            self.refused("shuriken: unknown debug setting '"@ + name + "'\n"@)
        }
    }

    /// The line with a warning adjusted.
    pub open spec fn warned(self, name: Seq<char>) -> Reading {
        if name == "list"@ {
            Reading::Exit(
                0,
                self.said(
                    "warning flags:\n  phonycycle={err,warn}  phony build statement references itself\n"@,
                ),
            )
        } else if name == "phonycycle=err"@ || name == "phonycycle=warn"@ {
            Reading::More(
                LineView {
                    options: OptionsView {
                        phony_cycle_should_err: name == "phonycycle=err"@,
                        ..self.options
                    },
                    ..self
                },
            )
        } else if name == "dupbuild=err"@ || name == "dupbuild=warn"@ {
            Reading::More(
                self.complained("shuriken: warning: deprecated warning 'dupbuild'\n"@),
            )
        } else if name == "depfilemulti=err"@ || name == "depfilemulti=warn"@ {
            Reading::More(
                self.complained("shuriken: warning: deprecated warning 'depfilemulti'\n"@),
            )
        } else {
            self.refused(
                "shuriken: "@ + unknown_text(
                    "warning flag"@,
                    name,
                    seq!["phonycycle=err", "phonycycle=warn"],
                ) + "\n"@,
            )
        }
    }

    /// The line with a number of jobs.
    pub open spec fn with_jobs(self, value: Seq<char>) -> Reading {
        match whole_number(value, i64::MIN as int, i64::MAX as int) {
            Some(n) => if n >= 0 {
                Reading::More(
                    LineView {
                        config: BuildConfig {
                            parallelism: if n == 0 {
                                usize::MAX
                            } else {
                                n as usize
                            },
                            ..self.config
                        },
                        jobs_given: true,
                        ..self
                    },
                )
            } else {
                self.refused(fatal_text("invalid -j parameter"@))
            },
            None => self.refused(fatal_text("invalid -j parameter"@)),
        }
    }

    /// The line with a number of failures to tolerate.
    pub open spec fn with_failures(self, value: Seq<char>) -> Reading {
        match whole_number(value, i64::MIN as int, i64::MAX as int) {
            Some(n) => Reading::More(
                LineView {
                    config: BuildConfig {
                        failures_allowed: if n > 0 {
                            n as usize
                        } else {
                            usize::MAX
                        },
                        ..self.config
                    },
                    ..self
                },
            ),
            None => self.refused(fatal_text("-k parameter not numeric; did you mean -k 0?"@)),
        }
    }

    /// The line with a subtool.
    pub open spec fn with_tool(self, name: Seq<char>) -> Reading {
        if name == "list"@ {
            Reading::Exit(0, self.said(tool_list()))
        } else if !is_one_of(name, known_tools()) {
            self.refused(fatal_text(unknown_text("tool"@, name, known_tools())))
        } else {
            Reading::More(
                LineView { options: OptionsView { tool: Some(name), ..self.options }, ..self },
            )
        }
    }

    /// The line with an option that takes a value.
    pub open spec fn with_value(self, c: char, value: Seq<char>) -> Reading {
        if c == 'd' {
            self.debugged(value)
        } else if c == 'f' {
            Reading::More(
                LineView { options: OptionsView { input_file: value, ..self.options }, ..self },
            )
        } else if c == 'j' {
            self.with_jobs(value)
        } else if c == 'k' {
            self.with_failures(value)
        } else if c == 'l' {
            if is_float(value) {
                Reading::More(
                    LineView {
                        options: OptionsView { load_limit: Some(value), ..self.options },
                        ..self
                    },
                )
            } else {
                self.refused(fatal_text("-l parameter not numeric: did you mean -l 0.0?"@))
            }
        } else if c == 't' {
            self.with_tool(value)
        } else if c == 'w' {
            self.warned(value)
        } else {
            Reading::More(
                LineView {
                    options: OptionsView { working_dir: Some(value), ..self.options },
                    ..self
                },
            )
        }
    }

    /// The line with an option that takes no value.
    pub open spec fn with_flag(self, c: char) -> Reading {
        if c == 'n' {
            Reading::More(
                LineView { config: BuildConfig { dry_run: true, ..self.config }, ..self },
            )
        } else if c == 'v' {
            Reading::More(
                LineView {
                    config: BuildConfig { verbosity: Verbosity::Verbose, ..self.config },
                    ..self
                },
            )
        } else if c == 'h' {
            self.refused(usage_text(self.config.parallelism))
        } else {
            self.unrecognized(seq!['-', c])
        }
    }

    /// The line with a long option.
    pub open spec fn with_long(self, long: Seq<char>) -> Reading {
        let name = long.take(scan(long, 0, not_equals()));
        if name == "help"@ {
            self.refused(usage_text(self.config.parallelism))
        } else if name == "version"@ {
            Reading::Exit(
                0,
                self.said(
                    NINJA_COMPAT_VERSION@ + " (shuriken "@ + SHURIKEN_VERSION@ + ")\n"@,
                ),
            )
        } else if name == "verbose"@ {
            Reading::More(
                LineView {
                    config: BuildConfig { verbosity: Verbosity::Verbose, ..self.config },
                    ..self
                },
            )
        } else if name == "quiet"@ {
            Reading::More(
                LineView {
                    config: BuildConfig {
                        verbosity: Verbosity::NoStatusUpdate,
                        ..self.config
                    },
                    ..self
                },
            )
        } else {
            self.unrecognized("--"@ + name)
        }
    }
}

/// Accepts everything but an equals sign.
pub open spec fn not_equals() -> spec_fn(char) -> bool {
    |c: char| c != '='
}

/// Whether a short option takes a value.
pub open spec fn takes_value(c: char) -> bool {
    c == 'd' || c == 'f' || c == 'j' || c == 'k' || c == 'l' || c == 't' || c == 'w' || c == 'C'
}

/// What reading the options of `args[i]` from its position `k` on comes to, and
/// how many arguments behind it are used up. The last of the options may take a
/// value, which is the rest of the argument or the next one.
pub open spec fn options_read(l: LineView, args: Seq<Seq<char>>, i: int, k: int) -> (Reading, int)
    decreases args[i].len() - k,
{
    let arg = args[i];
    if 0 <= k < arg.len() {
        let c = arg[k];
        if !takes_value(c) {
            match l.with_flag(c) {
                Reading::More(m) => options_read(m, args, i, k + 1),
                Reading::Exit(code, m) => (Reading::Exit(code, m), 0),
            }
        } else if k + 1 < arg.len() {
            (l.with_value(c, arg.skip(k + 1)), 0)
        } else if i + 1 < args.len() {
            (l.with_value(c, args[i + 1]), 1)
        } else {
            (
                l.refused(
                    "shuriken: option '-"@ + seq![c] + "' requires an argument\n"@,
                ),
                0,
            )
        }
    } else {
        (Reading::More(l), 0)
    }
}

/// Whether an argument starts with two dashes.
pub open spec fn is_long(arg: Seq<char>) -> bool {
    arg.len() >= 2 && arg[0] == '-' && arg[1] == '-'
}

/// What reading the arguments from the `i`-th on comes to. Once a tool is
/// chosen, everything else belongs to the tool.
pub open spec fn args_read(l: LineView, args: Seq<Seq<char>>, i: int) -> Reading
    decreases args.len() - i,
{
    if 0 <= i < args.len() {
        let arg = args[i];
        if l.options.tool is Some {
            args_read(
                LineView {
                    options: OptionsView {
                        tool_args: l.options.tool_args.push(arg),
                        ..l.options
                    },
                    ..l
                },
                args,
                i + 1,
            )
        } else if arg == "--"@ {
            Reading::More(
                LineView {
                    options: OptionsView {
                        targets: l.options.targets + args.skip(i + 1),
                        ..l.options
                    },
                    ..l
                },
            )
        } else if is_long(arg) {
            match l.with_long(arg.skip(2)) {
                Reading::More(m) => args_read(m, args, i + 1),
                end => end,
            }
        } else if arg.len() > 1 && arg[0] == '-' {
            match options_read(l, args, i, 1) {
                (Reading::More(m), used) => if used == 1 && i + 1 < args.len() {
                    args_read(m, args, i + 2)
                } else {
                    args_read(m, args, i + 1)
                },
                (end, _) => end,
            }
        } else {
            args_read(
                LineView {
                    options: OptionsView { targets: l.options.targets.push(arg), ..l.options },
                    ..l
                },
                args,
                i + 1,
            )
        }
    } else {
        Reading::More(l)
    }
}

/// The command line before anything of it has been read.
pub open spec fn line_start(parallelism: usize) -> LineView {
    LineView {
        options: OptionsView {
            input_file: "build.ninja"@,
            working_dir: None,
            tool: None,
            tool_args: Seq::empty(),
            targets: Seq::empty(),
            phony_cycle_should_err: false,
            stats: false,
            load_limit: None,
        },
        config: default_config(parallelism),
        jobs_given: false,
        out: Seq::empty(),
        err: Seq::empty(),
    }
}

impl CommandLine {
    fn refuse(&mut self, text: &str) -> (r: Option<u8>)
        ensures
            r == Some(1u8),
            final(self)@ == old(self)@.complained(text@),
    {
        self.err.append(text);
        Some(1)
    }

    fn refuse_fatally(&mut self, text: &str) -> (r: Option<u8>)
        ensures
            r == Some(1u8),
            final(self)@ == old(self)@.complained(fatal_text(text@)),
    {
        let mut m: String = "shuriken: fatal: ".to_owned();
        m.append(text);
        m.append("\n");
        self.refuse(m.as_str())
    }

    fn refuse_option(&mut self, option: &str) -> (r: Option<u8>)
        ensures
            r == Some(1u8),
            Reading::Exit(1, final(self)@) == old(self)@.unrecognized(option@),
    {
        let mut m: String = "shuriken: unrecognized option '".to_owned();
        m.append(option);
        m.append("'\n");
        m.append(usage(self.config.parallelism).as_str());
        self.refuse(m.as_str())
    }

    fn debug_enable(&mut self, name: &str) -> (r: Option<u8>)
        ensures
            read_as(r, final(self)@, old(self)@.debugged(name@)),
    {
        if str_eq(name, "list") {
            self.out.append(
                "debugging modes:\n  stats        print operation counts/timing info\n  explain      explain what caused a command to execute\n  keepdepfile  don't delete depfiles after they're read\n  keeprsp      don't delete @response files on success\nmultiple modes can be enabled via -d FOO -d BAR\n",
            );
            return Some(0);
        }
        if str_eq(name, "stats") {
            self.options.stats = true;
        } else if str_eq(name, "explain") {
            self.config.explain = true;
        } else if str_eq(name, "keepdepfile") {
            self.config.keep_depfile = true;
        } else if str_eq(name, "keeprsp") {
            self.config.keep_rsp = true;
        } else {
            return self.refuse(
                quoted("shuriken: unknown debug setting '", name, "'\n").as_str(),
            );
        }
        None
    }

    fn warning_enable(&mut self, name: &str) -> (r: Option<u8>)
        ensures
            read_as(r, final(self)@, old(self)@.warned(name@)),
    {
        if str_eq(name, "list") {
            self.out.append(
                "warning flags:\n  phonycycle={err,warn}  phony build statement references itself\n",
            );
            return Some(0);
        }
        if str_eq(name, "phonycycle=err") {
            self.options.phony_cycle_should_err = true;
        } else if str_eq(name, "phonycycle=warn") {
            self.options.phony_cycle_should_err = false;
        } else if str_eq(name, "dupbuild=err") || str_eq(name, "dupbuild=warn") {
            self.err.append("shuriken: warning: deprecated warning 'dupbuild'\n");
        } else if str_eq(name, "depfilemulti=err") || str_eq(name, "depfilemulti=warn") {
            self.err.append("shuriken: warning: deprecated warning 'depfilemulti'\n");
        } else {
            let known: Vec<&'static str> = vec!["phonycycle=err", "phonycycle=warn"];
            assert(known@ =~= seq!["phonycycle=err", "phonycycle=warn"]);
            let mut m: String = "shuriken: ".to_owned();
            m.append(unknown("warning flag", name, known.as_slice()).as_str());
            m.append("\n");
            return self.refuse(m.as_str());
        }
        None
    }

    fn set_jobs(&mut self, value: &str) -> (r: Option<u8>)
        ensures
            read_as(r, final(self)@, old(self)@.with_jobs(value@)),
    {
        let v = chars_of(value);
        assert(v@.subrange(0, v@.len() as int) =~= v@);
        match parse_whole(v.as_slice(), 0, v.len(), i64::MIN, i64::MAX) {
            Some(n) => {
                if n >= 0 {
                    self.config.parallelism = if n == 0 {
                        usize::MAX
                    } else {
                        n as usize
                    };
                    self.jobs_given = true;
                    return None;
                }
            },
            None => {},
        }
        self.refuse_fatally("invalid -j parameter")
    }

    fn set_failures(&mut self, value: &str) -> (r: Option<u8>)
        ensures
            read_as(r, final(self)@, old(self)@.with_failures(value@)),
    {
        let v = chars_of(value);
        assert(v@.subrange(0, v@.len() as int) =~= v@);
        match parse_whole(v.as_slice(), 0, v.len(), i64::MIN, i64::MAX) {
            Some(n) => {
                self.config.failures_allowed = if n > 0 {
                    n as usize
                } else {
                    usize::MAX
                };
                None
            },
            None => self.refuse_fatally("-k parameter not numeric; did you mean -k 0?"),
        }
    }

    fn set_tool(&mut self, name: &str) -> (r: Option<u8>)
        ensures
            read_as(r, final(self)@, old(self)@.with_tool(name@)),
    {
        if str_eq(name, "list") {
            self.out.append(
                "shuriken subtools:\n        clean  clean built files\n    cleandead  clean built files that are no longer produced by the manifest\n     commands  list all commands required to rebuild given targets\n       compdb  dump JSON compilation database to stdout\ncompdb-targets  dump JSON compilation database for a given list of targets to stdout\n         deps  show dependencies stored in the deps log\n        graph  output graphviz dot file for targets\n       inputs  list all inputs required to rebuild given targets\n  missingdeps  check deps log dependencies on generated files\n multi-inputs  print one or more sets of inputs required to build targets\n        query  show inputs/outputs for a path\n    recompact  recompacts ninja-internal data structures\n       restat  restats all outputs in the build log\n        rules  list all rules\n      targets  list targets by their rule or depth in the DAG\n",
            );
            return Some(0);
        }
        let known = tool_names();
        if !one_of(name, known.as_slice()) {
            let m = unknown("tool", name, known.as_slice());
            return self.refuse_fatally(m.as_str());
        }
        self.options.tool = Some(name.to_owned());
        None
    }

    fn set_value(&mut self, c: char, value: &str) -> (r: Option<u8>)
        requires
            takes_value(c),
        ensures
            read_as(r, final(self)@, old(self)@.with_value(c, value@)),
    {
        if c == 'd' {
            return self.debug_enable(value);
        }
        if c == 'j' {
            return self.set_jobs(value);
        }
        if c == 'k' {
            return self.set_failures(value);
        }
        if c == 't' {
            return self.set_tool(value);
        }
        if c == 'w' {
            return self.warning_enable(value);
        }
        if c == 'l' && !is_float_text(value) {
            return self.refuse_fatally("-l parameter not numeric: did you mean -l 0.0?");
        }
        if c == 'f' {
            self.options.input_file = value.to_owned();
        } else if c == 'l' {
            self.options.load_limit = Some(value.to_owned());
        } else {
            self.options.working_dir = Some(value.to_owned());
        }
        None
    }

    fn set_flag(&mut self, c: char) -> (r: Option<u8>)
        ensures
            read_as(r, final(self)@, old(self)@.with_flag(c)),
    {
        if c == 'n' {
            self.config.dry_run = true;
            None
        } else if c == 'v' {
            self.config.verbosity = Verbosity::Verbose;
            None
        } else if c == 'h' {
            let text = usage(self.config.parallelism);
            self.refuse(text.as_str())
        } else {
            let mut option = String::new();
            option.push('-');
            option.push(c);
            assert(option@ =~= seq!['-', c]);
            self.refuse_option(option.as_str())
        }
    }

    fn set_long(&mut self, long: &Vec<char>) -> (r: Option<u8>)
        ensures
            read_as(r, final(self)@, old(self)@.with_long(long@)),
    {
        let mut n: usize = 0;
        while n < long.len() && long[n] != '='
            invariant
                n <= long@.len(),
                scan(long@, n as int, not_equals()) == scan(long@, 0, not_equals()),
            decreases long@.len() - n,
        {
            n += 1;
        }
        let name = string_of(long, 0, n);
        assert(long@.subrange(0, n as int) =~= long@.take(n as int));
        let name = name.as_str();
        if str_eq(name, "help") {
            let text = usage(self.config.parallelism);
            return self.refuse(text.as_str());
        }
        if str_eq(name, "version") {
            let ghost out0 = self.out@;
            let mut text: String = NINJA_COMPAT_VERSION.to_owned();
            text.append(" (shuriken ");
            text.append(SHURIKEN_VERSION);
            text.append(")\n");
            self.out.append(text.as_str());
            return Some(0);
        }
        if str_eq(name, "verbose") {
            self.config.verbosity = Verbosity::Verbose;
        } else if str_eq(name, "quiet") {
            self.config.verbosity = Verbosity::NoStatusUpdate;
        } else {
            let mut option: String = "--".to_owned();
            option.append(name);
            return self.refuse_option(option.as_str());
        }
        None
    }

    fn read_options(&mut self, args: &[String], i: usize) -> (r: (Option<u8>, usize))
        requires
            i < args@.len(),
        ensures
            r.1 <= 1,
            r.1 == 1 ==> i + 1 < args@.len(),
            ({
                let w = options_read(old(self)@, texts(args@), i as int, 1);
                read_as(r.0, final(self)@, w.0) && (r.0 is None ==> r.1 == w.1)
            }),
    {
        let ghost all = texts(args@);
        let ghost want = options_read(self@, all, i as int, 1);
        let arg = chars_of(args[i].as_str());
        assert(all[i as int] == arg@);
        let mut k: usize = 1;
        while k < arg.len()
            invariant
                1 <= k,
                i < args@.len(),
                all == texts(args@),
                arg@ == all[i as int],
                want == options_read(old(self)@, all, i as int, 1),
                options_read(self@, all, i as int, k as int) == want,
            decreases arg@.len() - k,
        {
            let c: char = arg[k];
            if c == 'd' || c == 'f' || c == 'j' || c == 'k' || c == 'l' || c == 't' || c == 'w'
                || c == 'C' {
                if k + 1 < arg.len() {
                    let value = string_of(&arg, k + 1, arg.len());
                    assert(value@ =~= arg@.skip(k + 1));
                    return (self.set_value(c, value.as_str()), 0);
                }
                if args.len() - i > 1 {
                    assert(all[i + 1] == args@[i + 1]@);
                    return (self.set_value(c, args[i + 1].as_str()), 1);
                }
                let mut option = String::new();
                option.push(c);
                assert(option@ =~= seq![c]);
                let m = quoted("shuriken: option '-", option.as_str(), "' requires an argument\n");
                return (self.refuse(m.as_str()), 0);
            }
            match self.set_flag(c) {
                Some(code) => {
                    return (Some(code), 0);
                },
                None => {},
            }
            k += 1;
        }
        (None, 0)
    }
}

/// Whether reading ended as `w` says: with an exit code, or with more to read.
pub open spec fn read_as(r: Option<u8>, l: LineView, w: Reading) -> bool {
    match w {
        Reading::More(m) => r is None && l == m,
        Reading::Exit(code, m) => r == Some(code) && l == m,
    }
}

/// Outcome of parsing the command line.
pub enum ParsedLine {
    /// What there is to do.
    Run(CommandLine),
    /// Exit with a code, after printing what there is to say.
    Exit(u8, CommandLine),
}

fn push_text(v: &mut Vec<String>, t: &str)
    ensures
        texts(final(v)@) == texts(old(v)@).push(t@),
{
    v.push(t.to_owned());
    assert(texts(v@) =~= texts(old(v)@).push(t@));
}

/// Parse the command line, on a machine that runs `parallelism` jobs in
/// parallel by default.
pub fn parse_args(args: &[String], parallelism: usize) -> (r: ParsedLine)
    ensures
        match (r, args_read(line_start(parallelism), texts(args@), 0)) {
            (ParsedLine::Run(l), Reading::More(m)) => l@ == m,
            (ParsedLine::Exit(code, l), Reading::Exit(c, m)) => code == c && l@ == m,
            _ => false,
        },
{
    let ghost all = texts(args@);
    let mut line = CommandLine {
        options: Options {
            input_file: "build.ninja".to_owned(),
            working_dir: None,
            tool: None,
            tool_args: Vec::new(),
            targets: Vec::new(),
            phony_cycle_should_err: false,
            stats: false,
            load_limit: None,
        },
        config: BuildConfig {
            verbosity: Verbosity::Normal,
            dry_run: false,
            parallelism,
            failures_allowed: 1,
            keep_depfile: false,
            keep_rsp: false,
            explain: false,
        },
        jobs_given: false,
        out: String::new(),
        err: String::new(),
    };
    proof {
        assert(line@ =~= line_start(parallelism)) by {
            assert(texts(line.options.tool_args@) =~= Seq::empty());
            assert(texts(line.options.targets@) =~= Seq::empty());
        }
    }
    let ghost want = args_read(line@, all, 0);
    let mut i: usize = 0;
    while i < args.len()
        invariant
            i <= args@.len(),
            all == texts(args@),
            want == args_read(line_start(parallelism), all, 0),
            args_read(line@, all, i as int) == want,
        decreases args@.len() - i,
    {
        let arg = args[i].as_str();
        assert(all[i as int] == arg@);
        if line.options.tool.is_some() {
            push_text(&mut line.options.tool_args, arg);
            i += 1;
        } else if str_eq(arg, "--") {
            let mut k: usize = i + 1;
            let ghost had = line@;
            assert(all.subrange(i + 1, i + 1) =~= Seq::empty());
            assert(had.options.targets + all.subrange(i + 1, i + 1) =~= had.options.targets);
            while k < args.len()
                invariant
                    i < k <= args@.len(),
                    all == texts(args@),
                    line@ == (LineView {
                        options: OptionsView {
                            targets: had.options.targets + all.subrange(i + 1, k as int),
                            ..had.options
                        },
                        ..had
                    }),
                decreases args@.len() - k,
            {
                let ghost before = line@;
                assert(all[k as int] == args@[k as int]@);
                push_text(&mut line.options.targets, args[k].as_str());
                k += 1;
                proof {
                    assert(before.options.targets.push(all[k - 1]) =~= had.options.targets
                        + all.subrange(i + 1, k as int));
                }
            }
            assert(all.subrange(i + 1, k as int) =~= all.skip(i + 1));
            return ParsedLine::Run(line);
        } else {
            let v = chars_of(arg);
            if v.len() >= 2 && v[0] == '-' && v[1] == '-' {
                let rest = string_of(&v, 2, v.len());
                assert(rest@ =~= arg@.skip(2));
                match line.set_long(&chars_of(rest.as_str())) {
                    Some(code) => {
                        return ParsedLine::Exit(code, line);
                    },
                    None => {},
                }
                i += 1;
            } else if v.len() > 1 && v[0] == '-' {
                let (code, used) = line.read_options(args, i);
                match code {
                    Some(code) => {
                        return ParsedLine::Exit(code, line);
                    },
                    None => {},
                }
                i = i + 1 + used;
            } else {
                push_text(&mut line.options.targets, arg);
                i += 1;
            }
        }
    }
    ParsedLine::Run(line)
}

/// Words that are no options become targets, in their order; behind `--` any words
/// do. Behind a tool they belong to the tool.
pub proof fn law_words_become_targets(l: LineView, args: Seq<Seq<char>>, i: int)
    requires
        0 <= i <= args.len(),
    ensures
        l.options.tool is None && (forall|j: int|
            i <= j < args.len() ==> (#[trigger] args[j]).len() < 2 || args[j][0] != '-')
            ==> args_read(l, args, i) == Reading::More(
            LineView {
                options: OptionsView { targets: l.options.targets + args.skip(i), ..l.options },
                ..l
            },
        ),
        l.options.tool is None && i < args.len() && args[i] == "--"@ ==> args_read(l, args, i)
            == Reading::More(
            LineView {
                options: OptionsView { targets: l.options.targets + args.skip(i + 1), ..l.options },
                ..l
            },
        ),
        l.options.tool is Some ==> args_read(l, args, i) == Reading::More(
            LineView {
                options: OptionsView { tool_args: l.options.tool_args + args.skip(i), ..l.options },
                ..l
            },
        ),
    decreases args.len() - i,
{
    reveal_strlit("--");
    if i < args.len() {
        let arg = args[i];
        if l.options.tool is Some {
            let m = LineView {
                options: OptionsView { tool_args: l.options.tool_args.push(arg), ..l.options },
                ..l
            };
            law_words_become_targets(m, args, i + 1);
            assert(l.options.tool_args.push(arg) + args.skip(i + 1) =~= l.options.tool_args
                + args.skip(i));
        } else if forall|j: int|
            i <= j < args.len() ==> (#[trigger] args[j]).len() < 2 || args[j][0] != '-' {
            assert(args[i].len() < 2 || args[i][0] != '-');
            if arg == "--"@ {
                assert(arg[0] == '-' && arg.len() == 2);
            }
            let m = LineView {
                options: OptionsView { targets: l.options.targets.push(arg), ..l.options },
                ..l
            };
            law_words_become_targets(m, args, i + 1);
            assert(l.options.targets.push(arg) + args.skip(i + 1) =~= l.options.targets
                + args.skip(i));
        }
    } else {
        assert(l.options.targets + args.skip(i) =~= l.options.targets);
        assert(l.options.tool_args + args.skip(i) =~= l.options.tool_args);
    }
}

/// Whether the option `c` with the value `value` stands at `args[i]`, in one word or
/// in two, and the arguments behind it start at `next`.
pub open spec fn is_given(args: Seq<Seq<char>>, i: int, c: char, value: Seq<char>, next: int) -> bool {
    ||| next == i + 1 <= args.len() && value.len() > 0 && args[i] == seq!['-', c] + value
    ||| next == i + 2 <= args.len() && args[i] == seq!['-', c] && args[i + 1] == value
}

proof fn lemma_option_read(l: LineView, args: Seq<Seq<char>>, i: int, c: char, v: Seq<char>, next: int)
    requires
        0 <= i < args.len(),
        l.options.tool is None,
        takes_value(c),
        is_given(args, i, c, v, next),
    ensures
        args_read(l, args, i) == match l.with_value(c, v) {
            Reading::More(m) => args_read(m, args, next),
            end => end,
        },
{
    reveal_strlit("--");
    let arg = args[i];
    assert(c != '-');
    assert(arg[0] == '-' && arg[1] == c);
    assert(!is_long(arg));
    if arg == "--"@ {
        assert(arg[1] == '-');
    }
    if next == i + 1 && arg.len() > 2 {
        assert(arg.skip(2) =~= v);
    }
}

/// The number behind `-j`, in one word or in two, is the number of jobs, 0 standing
/// for any number; that behind `-k` is the number of failures to stop at, 0 standing
/// for any number. Nothing else of the line changes.
pub proof fn law_numbers_are_taken(l: LineView, args: Seq<Seq<char>>, i: int, n: nat, next: int)
    requires
        0 <= i < args.len(),
        l.options.tool is None,
        n <= i64::MAX,
        n <= usize::MAX,
    ensures
        is_given(args, i, 'j', decimal(n), next) ==> args_read(l, args, i) == args_read(
            LineView {
                config: BuildConfig {
                    parallelism: if n > 0 {
                        n as usize
                    } else {
                        usize::MAX
                    },
                    ..l.config
                },
                jobs_given: true,
                ..l
            },
            args,
            next,
        ),
        is_given(args, i, 'k', decimal(n), next) ==> args_read(l, args, i) == args_read(
            LineView {
                config: BuildConfig {
                    failures_allowed: if n > 0 {
                        n as usize
                    } else {
                        usize::MAX
                    },
                    ..l.config
                },
                ..l
            },
            args,
            next,
        ),
{
    crate::text::law_decimal_reads_back(n);
    let s = decimal(n);
    assert('0' <= s[0] <= '9');
    assert(whole_number(s, i64::MIN as int, i64::MAX as int) == Some(n as int));
    if is_given(args, i, 'j', s, next) {
        lemma_option_read(l, args, i, 'j', s, next);
    }
    if is_given(args, i, 'k', s, next) {
        lemma_option_read(l, args, i, 'k', s, next);
    }
}

} // verus!
