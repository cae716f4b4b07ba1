//! What the arguments of a subtool ask for.

use vstd::prelude::*;
use vstd::string::*;

use crate::cli::unknown;
use crate::text::{chars_of, parse_whole, str_eq, string_of};
use crate::tools::InputsOptions;

verus! {

use crate::cli::{fatal_text, unknown_text};
use crate::msvc::stands_at;
use crate::text::{texts, whole_number};

/// What `-t targets` lists.
pub enum TargetsMode {
    /// What the roots are built from, down to a depth.
    Depth(i32),
    /// Every output.
    All,
    /// The outputs of a rule, or the source files where none is named.
    Rule(String),
}

/// What a subtool is asked for.
pub enum ToolRequest {
    Clean { generator: bool, by_rule: bool, names: Vec<String> },
    CleanDead,
    Commands { single: bool, names: Vec<String> },
    Inputs { options: InputsOptions, names: Vec<String> },
    MultiInputs { delimiter: String, terminator: char, names: Vec<String> },
    Deps { names: Vec<String> },
    MissingDeps { names: Vec<String> },
    Graph { names: Vec<String> },
    Query { names: Vec<String> },
    Targets(TargetsMode),
    CompDb { expand: bool, names: Vec<String> },
    CompDbTargets { expand: bool, names: Vec<String> },
    Rules { described: bool },
    Recompact,
    Restat { names: Vec<String> },
    /// Nothing but printing this and exiting with a code.
    Stop { code: i32, out: String, err: String },
}

/// A [`TargetsMode`] by what it holds.
pub enum ModeView {
    Depth(i32),
    All,
    Rule(Seq<char>),
}

impl View for TargetsMode {
    type V = ModeView;

    open spec fn view(&self) -> ModeView {
        match self {
            TargetsMode::Depth(d) => ModeView::Depth(*d),
            TargetsMode::All => ModeView::All,
            TargetsMode::Rule(r) => ModeView::Rule(r@),
        }
    }
}

/// A [`ToolRequest`] by what it holds.
pub enum RequestView {
    Clean { generator: bool, by_rule: bool, names: Seq<Seq<char>> },
    CleanDead,
    Commands { single: bool, names: Seq<Seq<char>> },
    Inputs { options: InputsOptions, names: Seq<Seq<char>> },
    MultiInputs { delimiter: Seq<char>, terminator: char, names: Seq<Seq<char>> },
    Deps { names: Seq<Seq<char>> },
    MissingDeps { names: Seq<Seq<char>> },
    Graph { names: Seq<Seq<char>> },
    Query { names: Seq<Seq<char>> },
    Targets(ModeView),
    CompDb { expand: bool, names: Seq<Seq<char>> },
    CompDbTargets { expand: bool, names: Seq<Seq<char>> },
    Rules { described: bool },
    Recompact,
    Restat { names: Seq<Seq<char>> },
    Stop { code: i32, out: Seq<char>, err: Seq<char> },
}

impl View for ToolRequest {
    type V = RequestView;

    open spec fn view(&self) -> RequestView {
        match self {
            ToolRequest::Clean { generator, by_rule, names } => RequestView::Clean {
                generator: *generator,
                by_rule: *by_rule,
                names: texts(names@),
            },
            ToolRequest::CleanDead => RequestView::CleanDead,
            ToolRequest::Commands { single, names } => RequestView::Commands {
                single: *single,
                names: texts(names@),
            },
            ToolRequest::Inputs { options, names } => RequestView::Inputs {
                options: *options,
                names: texts(names@),
            },
            ToolRequest::MultiInputs { delimiter, terminator, names } => RequestView::MultiInputs {
                delimiter: delimiter@,
                terminator: *terminator,
                names: texts(names@),
            },
            ToolRequest::Deps { names } => RequestView::Deps { names: texts(names@) },
            ToolRequest::MissingDeps { names } => RequestView::MissingDeps { names: texts(names@) },
            ToolRequest::Graph { names } => RequestView::Graph { names: texts(names@) },
            ToolRequest::Query { names } => RequestView::Query { names: texts(names@) },
            ToolRequest::Targets(mode) => RequestView::Targets(mode@),
            ToolRequest::CompDb { expand, names } => RequestView::CompDb {
                expand: *expand,
                names: texts(names@),
            },
            ToolRequest::CompDbTargets { expand, names } => RequestView::CompDbTargets {
                expand: *expand,
                names: texts(names@),
            },
            ToolRequest::Rules { described } => RequestView::Rules { described: *described },
            ToolRequest::Recompact => RequestView::Recompact,
            ToolRequest::Restat { names } => RequestView::Restat { names: texts(names@) },
            ToolRequest::Stop { code, out, err } => RequestView::Stop {
                code: *code,
                out: out@,
                err: err@,
            },
        }
    }
}

/// `acc` with those of the arguments from the `k`-th on behind it that are none
/// of the flags.
pub open spec fn names_among(
    acc: Seq<Seq<char>>,
    args: Seq<Seq<char>>,
    flags: Seq<Seq<char>>,
    k: int,
) -> Seq<Seq<char>>
    decreases args.len() - k,
{
    if 0 <= k < args.len() {
        names_among(
            if flags.contains(args[k]) {
                acc
            } else {
                acc.push(args[k])
            },
            args,
            flags,
            k + 1,
        )
    } else {
        acc
    }
}

/// The arguments that are none of the flags.
pub open spec fn names_in(args: Seq<Seq<char>>, flags: Seq<Seq<char>>) -> Seq<Seq<char>> {
    names_among(Seq::empty(), args, flags, 0)
}

/// What is said of the use of a subtool.
pub open spec fn told(text: Seq<char>) -> RequestView {
    RequestView::Stop { code: 1, out: text, err: Seq::empty() }
}

/// What is complained about the use of a subtool.
pub open spec fn complaint(text: Seq<char>) -> RequestView {
    RequestView::Stop { code: 1, out: Seq::empty(), err: text }
}

/// What `-t clean` is asked for.
pub open spec fn clean_asked(args: Seq<Seq<char>>) -> RequestView {
    let names = names_in(args, seq!["-g"@, "-r"@]);
    if args.contains("-h"@) {
        told(
            "usage: shuriken -t clean [options] [targets]\n\noptions:\n  -g     also clean files marked as generator output\n  -r     interpret targets as a list of rules to clean instead\n"@,
        )
    } else if args.contains("-r"@) && names.len() == 0 {
        complaint("shuriken: error: expected a rule to clean\n"@)
    } else {
        RequestView::Clean {
            generator: args.contains("-g"@),
            by_rule: args.contains("-r"@),
            names,
        }
    }
}

/// What `-t commands` is asked for.
pub open spec fn commands_asked(args: Seq<Seq<char>>) -> RequestView {
    if args.contains("-h"@) {
        told(
            "usage: shuriken -t commands [options] [targets]\n\noptions:\n  -s     only print the final command to build [target], not the whole chain\n"@,
        )
    } else {
        RequestView::Commands {
            single: args.contains("-s"@),
            names: names_in(args, seq!["-s"@]),
        }
    }
}

/// What `-t inputs` is asked for.
pub open spec fn inputs_asked(args: Seq<Seq<char>>) -> RequestView {
    if args.contains("-h"@) || args.contains("--help"@) {
        told(
            "usage: shuriken -t inputs [options] [targets]\n\noptions:\n  -0, --print0            use NUL instead of newline as terminator\n  -E, --no-shell-escape   do not shell escape the result\n  -d, --dependency-order  sort results by dependency order\n"@,
        )
    } else {
        RequestView::Inputs {
            options: InputsOptions {
                print0: args.contains("-0"@) || args.contains("--print0"@),
                shell_escape: !(args.contains("-E"@) || args.contains("--no-shell-escape"@)),
                dependency_order: args.contains("-d"@) || args.contains("--dependency-order"@),
            },
            names: names_in(
                args,
                seq![
                    "-0"@,
                    "--print0"@,
                    "-E"@,
                    "--no-shell-escape"@,
                    "-d"@,
                    "--dependency-order"@,
                ],
            ),
        }
    }
}

/// What `-t multi-inputs` is asked for by the arguments from the `k`-th on.
pub open spec fn multi_inputs_asked(
    delimiter: Seq<char>,
    terminator: char,
    names: Seq<Seq<char>>,
    args: Seq<Seq<char>>,
    k: int,
) -> RequestView
    decreases args.len() - k,
{
    if 0 <= k < args.len() {
        let a = args[k];
        let option = "--delimiter="@;
        if a == "-0"@ || a == "--print0"@ {
            multi_inputs_asked(delimiter, '\0', names, args, k + 1)
        } else if a == "-d"@ {
            if k + 1 < args.len() {
                multi_inputs_asked(args[k + 1], terminator, names, args, k + 2)
            } else {
                multi_inputs_asked(delimiter, terminator, names, args, k + 1)
            }
        } else if stands_at(a, 0, option) {
            multi_inputs_asked(a.skip(option.len() as int), terminator, names, args, k + 1)
        } else if a == "-h"@ || a == "--help"@ {
            told(
                "usage: shuriken -t multi-inputs [options] [targets]\n\noptions:\n  -d, --delimiter=DELIM   use DELIM instead of TAB\n  -0, --print0            use NUL instead of newline as terminator\n"@,
            )
        } else {
            multi_inputs_asked(delimiter, terminator, names.push(a), args, k + 1)
        }
    } else {
        RequestView::MultiInputs { delimiter, terminator, names }
    }
}

/// What `-t targets` is asked for.
pub open spec fn targets_asked(args: Seq<Seq<char>>) -> RequestView {
    if args.len() == 0 {
        RequestView::Targets(ModeView::Depth(1))
    } else if args[0] == "rule"@ {
        RequestView::Targets(
            ModeView::Rule(
                if args.len() > 1 {
                    args[1]
                } else {
                    Seq::empty()
                },
            ),
        )
    } else if args[0] == "all"@ {
        RequestView::Targets(ModeView::All)
    } else if args[0] == "depth"@ {
        RequestView::Targets(
            ModeView::Depth(
                if args.len() > 1 {
                    match whole_number(args[1], i32::MIN as int, i32::MAX as int) {
                        Some(n) => n as i32,
                        None => 1,
                    }
                } else {
                    1
                },
            ),
        )
    } else {
        complaint(
            "shuriken: error: "@ + unknown_text(
                "target tool mode"@,
                args[0],
                seq!["rule", "depth", "all"],
            ) + "\n"@,
        )
    }
}

/// What `-t compdb` is asked for.
pub open spec fn compdb_asked(args: Seq<Seq<char>>) -> RequestView {
    if args.contains("-h"@) {
        told(
            "usage: shuriken -t compdb [options] [rules]\n\noptions:\n  -x     expand @rspfile style response file invocations\n"@,
        )
    } else {
        RequestView::CompDb {
            expand: args.contains("-x"@),
            names: names_in(args, seq!["-x"@]),
        }
    }
}

/// What `-t compdb-targets` is asked for.
pub open spec fn compdb_targets_asked(args: Seq<Seq<char>>) -> RequestView {
    let names = names_in(args, seq!["-x"@]);
    if args.contains("-h"@) || names.len() == 0 {
        told("usage: shuriken -t compdb-targets [-hx] target [targets]\n"@)
    } else {
        RequestView::CompDbTargets { expand: args.contains("-x"@), names }
    }
}

/// What `-t query` is asked for.
pub open spec fn query_asked(args: Seq<Seq<char>>) -> RequestView {
    if args.len() == 0 {
        complaint("shuriken: error: expected a target to query\n"@)
    } else {
        RequestView::Query { names: args }
    }
}

/// What `-t rules` is asked for.
pub open spec fn rules_asked(args: Seq<Seq<char>>) -> RequestView {
    if args.contains("-h"@) {
        told(
            "usage: shuriken -t rules [options]\n\noptions:\n  -d     also print the description of the rule\n"@,
        )
    } else {
        RequestView::Rules { described: args.contains("-d"@) }
    }
}

/// What a subtool is asked for by its arguments.
pub open spec fn tool_asked(tool: Seq<char>, args: Seq<Seq<char>>) -> RequestView {
    if tool == "clean"@ {
        clean_asked(args)
    } else if tool == "cleandead"@ {
        RequestView::CleanDead
    } else if tool == "commands"@ {
        commands_asked(args)
    } else if tool == "inputs"@ {
        inputs_asked(args)
    } else if tool == "multi-inputs"@ {
        multi_inputs_asked("\t"@, '\n', Seq::empty(), args, 0)
    } else if tool == "deps"@ {
        RequestView::Deps { names: args }
    } else if tool == "missingdeps"@ {
        RequestView::MissingDeps { names: args }
    } else if tool == "graph"@ {
        RequestView::Graph { names: args }
    } else if tool == "query"@ {
        query_asked(args)
    } else if tool == "targets"@ {
        targets_asked(args)
    } else if tool == "compdb"@ {
        compdb_asked(args)
    } else if tool == "compdb-targets"@ {
        compdb_targets_asked(args)
    } else if tool == "rules"@ {
        rules_asked(args)
    } else if tool == "recompact"@ {
        RequestView::Recompact
    } else if tool == "restat"@ {
        RequestView::Restat { names: names_in(args, seq!["-h"@]) }
    } else {
        complaint(fatal_text("unknown tool '"@ + tool + "'"@))
    }
}

fn has(args: &[String], flag: &str) -> (r: bool)
    ensures
        r == texts(args@).contains(flag@),
{
    let ghost t = texts(args@);
    let mut k: usize = 0;
    while k < args.len()
        invariant
            k <= args@.len(),
            t == texts(args@),
            forall|j: int| 0 <= j < k ==> t[j] != flag@,
        decreases args@.len() - k,
    {
        assert(t[k as int] == args@[k as int]@);
        if str_eq(args[k].as_str(), flag) {
            return true;
        }
        k += 1;
    }
    false
}

/// The contents of words.
pub open spec fn word_texts(words: Seq<&str>) -> Seq<Seq<char>> {
    Seq::new(words.len(), |i: int| words[i]@)
}

fn is_flag(arg: &str, flags: &Vec<&'static str>) -> (r: bool)
    ensures
        r == word_texts(flags@).contains(arg@),
{
    let ghost t = word_texts(flags@);
    let mut k: usize = 0;
    while k < flags.len()
        invariant
            k <= flags@.len(),
            t == word_texts(flags@),
            forall|j: int| 0 <= j < k ==> t[j] != arg@,
        decreases flags@.len() - k,
    {
        assert(t[k as int] == flags@[k as int]@);
        if str_eq(arg, flags[k]) {
            return true;
        }
        k += 1;
    }
    false
}

fn names(args: &[String], flags: &Vec<&'static str>) -> (r: Vec<String>)
    ensures
        texts(r@) == names_in(texts(args@), word_texts(flags@)),
{
    let ghost t = texts(args@);
    let ghost f = word_texts(flags@);
    let mut out: Vec<String> = Vec::new();
    assert(texts(out@) =~= Seq::empty());
    let mut k: usize = 0;
    while k < args.len()
        invariant
            k <= args@.len(),
            t == texts(args@),
            f == word_texts(flags@),
            names_among(texts(out@), t, f, k as int) == names_in(t, f),
        decreases args@.len() - k,
    {
        let arg = args[k].as_str();
        assert(t[k as int] == arg@);
        if !is_flag(arg, flags) {
            let ghost had = texts(out@);
            out.push(arg.to_owned());
            assert(texts(out@) =~= had.push(arg@));
        }
        k += 1;
    }
    out
}

fn tell(text: &str) -> (r: ToolRequest)
    ensures
        r@ == told(text@),
{
    let r = ToolRequest::Stop { code: 1, out: text.to_owned(), err: String::new() };
    assert(r@->Stop_err =~= Seq::empty());
    r
}

fn complain(text: &str) -> (r: ToolRequest)
    ensures
        r@ == complaint(text@),
{
    let r = ToolRequest::Stop { code: 1, out: String::new(), err: text.to_owned() };
    assert(r@->Stop_out =~= Seq::empty());
    r
}

fn clean_request(args: &[String]) -> (r: ToolRequest)
    ensures
        r@ == clean_asked(texts(args@)),
{
    if has(args, "-h") {
        return tell(
            "usage: shuriken -t clean [options] [targets]\n\noptions:\n  -g     also clean files marked as generator output\n  -r     interpret targets as a list of rules to clean instead\n",
        );
    }
    let flags: Vec<&'static str> = vec!["-g", "-r"];
    assert(word_texts(flags@) =~= seq!["-g"@, "-r"@]);
    let found = names(args, &flags);
    let by_rule: bool = has(args, "-r");
    if by_rule && found.len() == 0 {
        return complain("shuriken: error: expected a rule to clean\n");
    }
    ToolRequest::Clean { generator: has(args, "-g"), by_rule, names: found }
}

fn commands_request(args: &[String]) -> (r: ToolRequest)
    ensures
        r@ == commands_asked(texts(args@)),
{
    if has(args, "-h") {
        return tell(
            "usage: shuriken -t commands [options] [targets]\n\noptions:\n  -s     only print the final command to build [target], not the whole chain\n",
        );
    }
    let flags: Vec<&'static str> = vec!["-s"];
    assert(word_texts(flags@) =~= seq!["-s"@]);
    ToolRequest::Commands { single: has(args, "-s"), names: names(args, &flags) }
}

fn inputs_request(args: &[String]) -> (r: ToolRequest)
    ensures
        r@ == inputs_asked(texts(args@)),
{
    if has(args, "-h") || has(args, "--help") {
        return tell(
            "usage: shuriken -t inputs [options] [targets]\n\noptions:\n  -0, --print0            use NUL instead of newline as terminator\n  -E, --no-shell-escape   do not shell escape the result\n  -d, --dependency-order  sort results by dependency order\n",
        );
    }
    let flags: Vec<&'static str> = vec![
        "-0",
        "--print0",
        "-E",
        "--no-shell-escape",
        "-d",
        "--dependency-order",
    ];
    assert(word_texts(flags@) =~= seq![
        "-0"@,
        "--print0"@,
        "-E"@,
        "--no-shell-escape"@,
        "-d"@,
        "--dependency-order"@,
    ]);
    ToolRequest::Inputs {
        options: InputsOptions {
            print0: has(args, "-0") || has(args, "--print0"),
            shell_escape: !(has(args, "-E") || has(args, "--no-shell-escape")),
            dependency_order: has(args, "-d") || has(args, "--dependency-order"),
        },
        names: names(args, &flags),
    }
}

/// What stands behind an option at the front of an argument.
fn behind(arg: &str, option: &str) -> (r: Option<String>)
    ensures
        match r {
            Some(v) => stands_at(arg@, 0, option@) && v@ == arg@.skip(option@.len() as int),
            None => !stands_at(arg@, 0, option@),
        },
{
    let v = chars_of(arg);
    let w = chars_of(option);
    if w.len() > v.len() {
        return None;
    }
    let front = string_of(&v, 0, w.len());
    if !str_eq(front.as_str(), option) {
        return None;
    }
    let rest = string_of(&v, w.len(), v.len());
    assert(rest@ =~= arg@.skip(option@.len() as int));
    Some(rest)
}

fn multi_inputs_request(args: &[String]) -> (r: ToolRequest)
    ensures
        r@ == multi_inputs_asked("\t"@, '\n', Seq::empty(), texts(args@), 0),
{
    let ghost t = texts(args@);
    let mut delimiter: String = "\t".to_owned();
    let mut terminator: char = '\n';
    let mut found: Vec<String> = Vec::new();
    assert(texts(found@) =~= Seq::empty());
    let ghost want = multi_inputs_asked(delimiter@, terminator, texts(found@), t, 0);
    let mut k: usize = 0;
    while k < args.len()
        invariant
            k <= args@.len(),
            t == texts(args@),
            want == multi_inputs_asked("\t"@, '\n', Seq::empty(), t, 0),
            multi_inputs_asked(delimiter@, terminator, texts(found@), t, k as int) == want,
        decreases args@.len() - k,
    {
        let arg = args[k].as_str();
        assert(t[k as int] == arg@);
        if str_eq(arg, "-0") || str_eq(arg, "--print0") {
            terminator = '\0';
        } else if str_eq(arg, "-d") {
            if args.len() - k > 1 {
                assert(t[k + 1] == args@[k + 1]@);
                delimiter = args[k + 1].clone();
                k += 1;
            }
        } else if let Some(value) = behind(arg, "--delimiter=") {
            delimiter = value;
        } else if str_eq(arg, "-h") || str_eq(arg, "--help") {
            return tell(
                "usage: shuriken -t multi-inputs [options] [targets]\n\noptions:\n  -d, --delimiter=DELIM   use DELIM instead of TAB\n  -0, --print0            use NUL instead of newline as terminator\n",
            );
        } else {
            let ghost had = texts(found@);
            found.push(arg.to_owned());
            assert(texts(found@) =~= had.push(arg@));
        }
        k += 1;
    }
    ToolRequest::MultiInputs { delimiter, terminator, names: found }
}

fn targets_request(args: &[String]) -> (r: ToolRequest)
    ensures
        r@ == targets_asked(texts(args@)),
{
    let ghost t = texts(args@);
    if args.len() == 0 {
        return ToolRequest::Targets(TargetsMode::Depth(1));
    }
    let mode = args[0].as_str();
    assert(t[0] == mode@);
    if str_eq(mode, "rule") {
        let rule: String = if args.len() > 1 {
            assert(t[1] == args@[1]@);
            args[1].clone()
        } else {
            let none = String::new();
            assert(none@ =~= Seq::empty());
            none
        };
        return ToolRequest::Targets(TargetsMode::Rule(rule));
    }
    if str_eq(mode, "all") {
        return ToolRequest::Targets(TargetsMode::All);
    }
    if str_eq(mode, "depth") {
        let mut depth: i32 = 1;
        if args.len() > 1 {
            assert(t[1] == args@[1]@);
            let v = chars_of(args[1].as_str());
            assert(v@.subrange(0, v@.len() as int) =~= v@);
            if let Some(n) = parse_whole(
                v.as_slice(),
                0,
                v.len(),
                i32::MIN as i64,
                i32::MAX as i64,
            ) {
                depth = n as i32;
            }
        }
        return ToolRequest::Targets(TargetsMode::Depth(depth));
    }
    let known: Vec<&'static str> = vec!["rule", "depth", "all"];
    assert(known@ =~= seq!["rule", "depth", "all"]);
    let mut m: String = "shuriken: error: ".to_owned();
    m.append(unknown("target tool mode", mode, known.as_slice()).as_str());
    m.append("\n");
    complain(m.as_str())
}

fn copied(args: &[String]) -> (r: Vec<String>)
    ensures
        texts(r@) == texts(args@),
{
    let ghost t = texts(args@);
    let mut out: Vec<String> = Vec::new();
    let mut k: usize = 0;
    while k < args.len()
        invariant
            k <= args@.len(),
            t == texts(args@),
            texts(out@) =~= t.take(k as int),
        decreases args@.len() - k,
    {
        let ghost had = texts(out@);
        assert(t[k as int] == args@[k as int]@);
        out.push(args[k].clone());
        k += 1;
        assert(texts(out@) =~= had.push(t[k - 1]));
    }
    assert(t.take(k as int) =~= t);
    out
}

fn compdb_targets_request(args: &[String]) -> (r: ToolRequest)
    ensures
        r@ == compdb_targets_asked(texts(args@)),
{
    let flags: Vec<&'static str> = vec!["-x"];
    assert(word_texts(flags@) =~= seq!["-x"@]);
    let found = names(args, &flags);
    if has(args, "-h") || found.len() == 0 {
        return tell("usage: shuriken -t compdb-targets [-hx] target [targets]\n");
    }
    ToolRequest::CompDbTargets { expand: has(args, "-x"), names: found }
}

fn compdb_request(args: &[String]) -> (r: ToolRequest)
    ensures
        r@ == compdb_asked(texts(args@)),
{
    if has(args, "-h") {
        return tell(
            "usage: shuriken -t compdb [options] [rules]\n\noptions:\n  -x     expand @rspfile style response file invocations\n",
        );
    }
    let flags: Vec<&'static str> = vec!["-x"];
    assert(word_texts(flags@) =~= seq!["-x"@]);
    ToolRequest::CompDb { expand: has(args, "-x"), names: names(args, &flags) }
}

fn rules_request(args: &[String]) -> (r: ToolRequest)
    ensures
        r@ == rules_asked(texts(args@)),
{
    if has(args, "-h") {
        return tell(
            "usage: shuriken -t rules [options]\n\noptions:\n  -d     also print the description of the rule\n",
        );
    }
    ToolRequest::Rules { described: has(args, "-d") }
}

/// What a subtool is asked for by its arguments.
pub fn tool_request(tool: &str, args: &[String]) -> (r: ToolRequest)
    ensures
        r@ == tool_asked(tool@, texts(args@)),
{
    if str_eq(tool, "clean") {
        clean_request(args)
    } else if str_eq(tool, "cleandead") {
        ToolRequest::CleanDead
    } else if str_eq(tool, "commands") {
        commands_request(args)
    } else if str_eq(tool, "inputs") {
        inputs_request(args)
    } else if str_eq(tool, "multi-inputs") {
        multi_inputs_request(args)
    } else if str_eq(tool, "deps") {
        ToolRequest::Deps { names: copied(args) }
    } else if str_eq(tool, "missingdeps") {
        ToolRequest::MissingDeps { names: copied(args) }
    } else if str_eq(tool, "graph") {
        ToolRequest::Graph { names: copied(args) }
    } else if str_eq(tool, "query") {
        if args.len() == 0 {
            return complain("shuriken: error: expected a target to query\n");
        }
        ToolRequest::Query { names: copied(args) }
    } else if str_eq(tool, "targets") {
        targets_request(args)
    } else if str_eq(tool, "compdb") {
        compdb_request(args)
    } else if str_eq(tool, "compdb-targets") {
        compdb_targets_request(args)
    } else if str_eq(tool, "rules") {
        rules_request(args)
    } else if str_eq(tool, "recompact") {
        ToolRequest::Recompact
    } else if str_eq(tool, "restat") {
        let flags: Vec<&'static str> = vec!["-h"];
        assert(word_texts(flags@) =~= seq!["-h"@]);
        ToolRequest::Restat { names: names(args, &flags) }
    } else {
        let mut m: String = "shuriken: fatal: unknown tool '".to_owned();
        m.append(tool);
        m.append("'\n");
        proof {
            reveal_strlit("shuriken: fatal: unknown tool '");
            reveal_strlit("shuriken: fatal: ");
            reveal_strlit("unknown tool '");
            reveal_strlit("'\n");
            reveal_strlit("'");
            reveal_strlit("\n");
            assert(m@ =~= fatal_text("unknown tool '"@ + tool@ + "'"@));
        }
        complain(m.as_str())
    }
}

} // verus!
