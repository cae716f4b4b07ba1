//! The build log (`.ninja_log`): command hashes, timings and output mtimes.
//!
//! The format is version 7 of the log: a signature line, then one line of
//! tab-separated fields per command. Later lines for an output win, so updates
//! are pure appends.

use vstd::prelude::*;
use vstd::string::*;

use crate::disk::DiskInterface;
use crate::error::Error;
use crate::hash::hash_command;
use crate::state::{EdgeId, State};
use crate::text::{
    chars_of, parse_hex, parse_whole, push_hexadecimal, push_signed, str_eq,
    string_from_utf8_lossy, string_of, trim_range,
};
use crate::text_map::TextMap;

verus! {

use crate::error::ErrorView;
use crate::hash::rapidhash_of;
use crate::lexer::not_newline;
use crate::state::{nodes_below, NodeId, StateView};
use crate::text::{
    ascending, hex_number, hexadecimal, law_hash_reads_back, law_hexadecimal_reads_back,
    law_number_reads_back, lemma_encode_concat, lemma_encode_newline, lemma_encode_no_newline,
    lemma_scan, lemma_scan_is, scan, scan_back, signed_decimal, texts, trimmed, utf8_lossy,
    whole_number,
};
use vstd::utf8::{encode_utf8, encode_utf8_decode_utf8, encode_utf8_valid_utf8};

/// The version of the format.
pub const CURRENT_VERSION: i64 = 7;

/// One recorded command execution.
#[derive(Debug)]
pub struct LogEntry {
    /// The output path this entry describes.
    pub output: String,
    /// Hash of the command line (see [`crate::hash::hash_command`]).
    pub command_hash: u64,
    /// Milliseconds from the start of the build to when the command started.
    pub start_time: i32,
    /// Milliseconds from the start of the build to when the command finished.
    pub end_time: i32,
    /// mtime of the output after the command ran, in nanoseconds.
    pub mtime: i64,
}

/// A log entry by what it records.
pub struct EntryView {
    pub command_hash: u64,
    pub start_time: i32,
    pub end_time: i32,
    pub mtime: i64,
}

impl View for LogEntry {
    type V = EntryView;

    open spec fn view(&self) -> EntryView {
        EntryView {
            command_hash: self.command_hash,
            start_time: self.start_time,
            end_time: self.end_time,
            mtime: self.mtime,
        }
    }
}

impl LogEntry {
    /// An entry with only its output set.
    pub fn new(output: &str) -> (r: LogEntry)
        ensures
            r.output@ == output@,
            r@ == (EntryView { command_hash: 0, start_time: 0, end_time: 0, mtime: 0 }),
    {
        LogEntry {
            output: output.to_owned(),
            command_hash: 0,
            start_time: 0,
            end_time: 0,
            mtime: 0,
        }
    }

    /// How long the command took, in milliseconds.
    pub fn duration_millis(&self) -> (r: i64)
        requires
            i32::MIN <= self.end_time - self.start_time <= i32::MAX,
        ensures
            r == self.end_time - self.start_time,
    {
        (self.end_time - self.start_time) as i64
    }
}

/// Outcome of loading a log.
#[derive(Copy, Clone, PartialEq, Eq, Structural, Debug)]
pub enum LoadStatus {
    /// The log was loaded (possibly with a recoverable warning).
    Success,
    /// There was no log to load.
    NotFound,
}

/// The result of loading a log file.
#[derive(Debug)]
pub struct LoadResult {
    /// Whether a log was found.
    pub status: LoadStatus,
    /// A non-fatal problem worth telling the user about.
    pub warning: Option<String>,
}

/// The entries of a log, by output.
pub type Entries = Map<Seq<char>, EntryView>;

/// Accepts everything but a tab.
pub open spec fn not_tab() -> spec_fn(char) -> bool {
    |c: char| c != '\t'
}

/// Accepts line feeds and carriage returns.
pub open spec fn line_end() -> spec_fn(char) -> bool {
    |c: char| c == '\n' || c == '\r'
}

/// The signature that the first line of a log starts with.
pub open spec fn signature() -> Seq<char> {
    "# ninja log v"@
}

/// The first line of a log.
pub open spec fn header_line() -> Seq<char> {
    "# ninja log v7\n"@
}

/// The version that a first line declares, 0 when it declares none.
pub open spec fn declared_version(line: Seq<char>) -> int {
    let n = signature().len() as int;
    if line.len() >= n && line.take(n) == signature() {
        match whole_number(trimmed(line.skip(n)), i32::MIN as int, i32::MAX as int) {
            Some(v) => v,
            None => 0,
        }
    } else {
        0
    }
}

/// A number, or 0 where there is none.
pub open spec fn or_zero(n: Option<int>) -> int {
    match n {
        Some(v) => v,
        None => 0,
    }
}

/// The output and the entry that a line records, if it has all five fields.
pub open spec fn entry_of(line: Seq<char>) -> Option<(Seq<char>, EntryView)> {
    let s = line.take(scan_back(line, line.len() as int, line_end()));
    let a = scan(s, 0, not_tab());
    let b = scan(s, a + 1, not_tab());
    let c = scan(s, b + 1, not_tab());
    let d = scan(s, c + 1, not_tab());
    if a < s.len() && b < s.len() && c < s.len() && d < s.len() {
        Some(
            (
                s.subrange(c + 1, d),
                EntryView {
                    start_time: or_zero(
                        whole_number(
                            trimmed(s.subrange(0, a)),
                            i32::MIN as int,
                            i32::MAX as int,
                        ),
                    ) as i32,
                    end_time: or_zero(
                        whole_number(
                            trimmed(s.subrange(a + 1, b)),
                            i32::MIN as int,
                            i32::MAX as int,
                        ),
                    ) as i32,
                    mtime: or_zero(
                        whole_number(
                            trimmed(s.subrange(b + 1, c)),
                            i64::MIN as int,
                            i64::MAX as int,
                        ),
                    ) as i64,
                    command_hash: or_zero(
                        hex_number(trimmed(s.subrange(d + 1, s.len() as int))),
                    ) as u64,
                },
            ),
        )
    } else {
        None
    }
}

/// What has been read of a log.
pub struct Loading {
    /// The version, 0 until it is known.
    pub version: int,
    pub entries: Entries,
    /// How many lines recorded an output that was not recorded before.
    pub unique: nat,
    /// How many lines recorded an output.
    pub total: nat,
    /// Whether there was any line.
    pub any: bool,
}

/// What one more line makes of what has been read, or why the log is of no use.
#[verifier::opaque]
pub open spec fn line_read(s: Loading, raw: Seq<u8>) -> Result<Loading, Seq<char>> {
    let line = utf8_lossy(raw);
    if raw.len() == 0 {
        Ok(s)
    } else if s.version == 0 {
        let v = declared_version(line);
        if v < CURRENT_VERSION {
            Err("build log version is too old; starting over"@)
        } else if v > CURRENT_VERSION {
            Err("build log version is too new; starting over"@)
        } else {
            Ok(Loading { version: v, any: true, ..s })
        }
    } else {
        match entry_of(line) {
            None => Ok(Loading { any: true, ..s }),
            Some((output, e)) => Ok(
                Loading {
                    entries: s.entries.insert(output, e),
                    unique: if s.entries.contains_key(output) {
                        s.unique
                    } else {
                        s.unique + 1
                    },
                    total: s.total + 1,
                    any: true,
                    ..s
                },
            ),
        }
    }
}

/// What the lines from position `p` on make of what has been read.
pub open spec fn lines_read(c: Seq<u8>, p: int, s: Loading) -> Result<Loading, Seq<char>>
    decreases c.len() - p,
{
    if 0 <= p <= c.len() {
        proof {
            lemma_scan(c, p, not_newline());
        }
        let end = scan(c, p, not_newline());
        match line_read(s, c.subrange(p, end)) {
            Err(m) => Err(m),
            Ok(n) => if end >= c.len() {
                Ok(n)
            } else {
                lines_read(c, end + 1, n)
            },
        }
    } else {
        Ok(s)
    }
}

/// The state in which loading starts.
pub open spec fn load_start(entries: Entries) -> Loading {
    Loading { version: 0, entries, unique: 0, total: 0, any: false }
}

/// Whether a log that was read should be rewritten: it is mostly made of
/// entries that later ones replaced.
pub open spec fn is_mostly_stale(s: Loading) -> bool {
    s.any && s.total > 100 && s.total > s.unique * 3
}

/// The line that records an entry.
pub open spec fn entry_line(output: Seq<char>, e: EntryView) -> Seq<char> {
    signed_decimal(e.start_time as int) + "\t"@ + signed_decimal(e.end_time as int) + "\t"@
        + signed_decimal(e.mtime as int) + "\t"@ + output + "\t"@ + hexadecimal(
        e.command_hash as nat,
    ) + "\n"@
}

/// The lines that record the entries of `keys`.
pub open spec fn entry_lines(keys: Seq<Seq<char>>, entries: Entries) -> Seq<char>
    decreases keys.len(),
{
    if keys.len() == 0 {
        Seq::empty()
    } else {
        entry_lines(keys.drop_last(), entries) + entry_line(keys.last(), entries[keys.last()])
    }
}

/// Whether `keys` are the outputs of `entries` in ascending order.
pub open spec fn are_keys(keys: Seq<Seq<char>>, entries: Entries) -> bool {
    &&& ascending(keys)
    &&& forall|k: Seq<char>| #[trigger] keys.contains(k) <==> entries.contains_key(k)
}

/// Whether `text` is a log of exactly `entries`, in the order of their outputs.
pub open spec fn is_log_text(text: Seq<char>, entries: Entries) -> bool {
    exists|keys: Seq<Seq<char>>| #[trigger]
        are_keys(keys, entries) && text == header_line() + entry_lines(keys, entries)
}

/// The entry for a command that ran.
pub open spec fn ran(hash: u64, start: i32, end: i32, mtime: i64) -> EntryView {
    EntryView { command_hash: hash, start_time: start, end_time: end, mtime }
}

/// The entries after a command has been recorded for each of the outputs.
pub open spec fn with_recorded(
    entries: Entries,
    s: StateView,
    outputs: Seq<NodeId>,
    e: EntryView,
) -> Entries
    decreases outputs.len(),
{
    if outputs.len() == 0 {
        entries
    } else {
        with_recorded(entries, s, outputs.drop_last(), e).insert(
            s.nodes[outputs.last().0 as int].path,
            e,
        )
    }
}

/// The lines that record a command for each of the outputs.
pub open spec fn recorded_lines(s: StateView, outputs: Seq<NodeId>, e: EntryView) -> Seq<char>
    decreases outputs.len(),
{
    if outputs.len() == 0 {
        Seq::empty()
    } else {
        recorded_lines(s, outputs.drop_last(), e) + entry_line(
            s.nodes[outputs.last().0 as int].path,
            e,
        )
    }
}

fn push_entry(out: &mut String, output: &str, e: &LogEntry)
    ensures
        final(out)@ == old(out)@ + entry_line(output@, e@),
{
    push_signed(out, e.start_time as i64);
    out.append("\t");
    push_signed(out, e.end_time as i64);
    out.append("\t");
    push_signed(out, e.mtime);
    out.append("\t");
    out.append(output);
    out.append("\t");
    push_hexadecimal(out, e.command_hash);
    out.append("\n");
    assert(final(out)@ =~= old(out)@ + entry_line(output@, e@));
}

fn next_tab(v: &[char], from: usize, to: usize) -> (r: usize)
    requires
        from <= to <= v@.len(),
    ensures
        from <= r <= to,
        r == scan(v@.take(to as int), from as int, not_tab()),
{
    let ghost s = v@.take(to as int);
    let mut r: usize = from;
    while r < to && v[r] != '\t'
        invariant
            from <= r <= to <= v@.len(),
            s == v@.take(to as int),
            scan(s, r as int, not_tab()) == scan(s, from as int, not_tab()),
        decreases to - r,
    {
        assert(s[r as int] == v@[r as int]);
        r += 1;
    }
    proof {
        if r < to {
            assert(s[r as int] == v@[r as int]);
        }
    }
    r
}

fn number_in(v: &[char], from: usize, to: usize, min: i64, max: i64) -> (r: i64)
    requires
        from <= to <= v@.len(),
        min <= 0 <= max,
    ensures
        r == or_zero(
            whole_number(
                trimmed(v@.subrange(from as int, to as int)),
                min as int,
                max as int,
            ),
        ),
        min <= r <= max,
{
    let (a, b) = trim_range(v, from, to);
    match parse_whole(v, a, b, min, max) {
        Some(n) => n,
        None => 0,
    }
}

fn parse_entry(line: &str) -> (r: Option<LogEntry>)
    ensures
        match (r, entry_of(line@)) {
            (Some(e), Some((output, w))) => e.output@ == output && e@ == w,
            (None, None) => true,
            _ => false,
        },
{
    let chars = chars_of(line);
    let v = chars.as_slice();
    let mut n: usize = v.len();
    while n > 0 && (v[n - 1] == '\n' || v[n - 1] == '\r')
        invariant
            n <= v@.len(),
            v@ == line@,
            scan_back(v@, n as int, line_end()) == scan_back(v@, v@.len() as int, line_end()),
        decreases n,
    {
        n -= 1;
    }
    let ghost s = v@.take(n as int);
    let a: usize = next_tab(v, 0, n);
    if a == n {
        return None;
    }
    let b: usize = next_tab(v, a + 1, n);
    if b == n {
        return None;
    }
    let c: usize = next_tab(v, b + 1, n);
    if c == n {
        return None;
    }
    let d: usize = next_tab(v, c + 1, n);
    if d == n {
        return None;
    }
    assert(s.subrange(0, a as int) =~= v@.subrange(0, a as int));
    assert(s.subrange(a + 1, b as int) =~= v@.subrange(a + 1, b as int));
    assert(s.subrange(b + 1, c as int) =~= v@.subrange(b + 1, c as int));
    assert(s.subrange(c + 1, d as int) =~= v@.subrange(c + 1, d as int));
    assert(s.subrange(d + 1, n as int) =~= v@.subrange(d + 1, n as int));
    let start: i64 = number_in(v, 0, a, i32::MIN as i64, i32::MAX as i64);
    let end: i64 = number_in(v, a + 1, b, i32::MIN as i64, i32::MAX as i64);
    let mtime: i64 = number_in(v, b + 1, c, i64::MIN, i64::MAX);
    let (x, y) = trim_range(v, d + 1, n);
    let hash: u64 = match parse_hex(v, x, y) {
        Some(h) => h,
        None => 0,
    };
    Some(
        LogEntry {
            output: string_of(v, c + 1, d),
            command_hash: hash,
            start_time: start as i32,
            end_time: end as i32,
            mtime,
        },
    )
}

fn parse_version_line(line: &str) -> (r: i64)
    ensures
        r == declared_version(line@),
{
    let chars = chars_of(line);
    let sig = chars_of("# ninja log v");
    let n: usize = sig.len();
    if chars.len() < n {
        return 0;
    }
    let mut i: usize = 0;
    while i < n
        invariant
            i <= n == sig.len(),
            n <= chars.len(),
            chars@ == line@,
            sig@ == signature(),
            forall|k: int| 0 <= k < i ==> chars@[k] == sig@[k],
        decreases n - i,
    {
        if chars[i] != sig[i] {
            proof {
                assert(line@.take(n as int)[i as int] != signature()[i as int]);
            }
            return 0;
        }
        i += 1;
    }
    assert(line@.take(n as int) =~= signature());
    assert(chars@.subrange(n as int, chars@.len() as int) =~= line@.skip(n as int));
    let len: usize = chars.len();
    number_in(chars.as_slice(), n, len, i32::MIN as i64, i32::MAX as i64)
}

/// How far loading has got, apart from the entries.
struct Progress {
    version: i64,
    unique: u128,
    total: u128,
    any: bool,
}

impl Progress {
    spec fn loading(&self, entries: Entries) -> Loading {
        Loading {
            version: self.version as int,
            entries,
            unique: self.unique as nat,
            total: self.total as nat,
            any: self.any,
        }
    }
}

/// A log of every command run, keyed by output path.
pub struct BuildLog {
    entries: TextMap<LogEntry>,
    needs_recompaction: bool,
}

impl BuildLog {
    #[verifier::type_invariant]
    closed spec fn outputs_ok(&self) -> bool {
        forall|k: Seq<char>| #[trigger]
            self.entries@.contains_key(k) ==> self.entries@[k].output@ == k
    }

    /// What the log records.
    pub closed spec fn recorded(&self) -> Entries {
        self.entries@.map_values(|e: LogEntry| e@)
    }

    /// Whether the log should be rewritten.
    pub closed spec fn stale(&self) -> bool {
        self.needs_recompaction
    }

    /// An empty log.
    pub fn new() -> (r: BuildLog)
        ensures
            r.recorded() == Map::<Seq<char>, EntryView>::empty(),
            !r.stale(),
    {
        let r = BuildLog { entries: TextMap::new(), needs_recompaction: false };
        assert(r.recorded() =~= Map::empty());
        r
    }

    /// The outputs of all entries, in ascending order.
    pub fn entries(&self) -> (r: &Vec<String>)
        ensures
            are_keys(texts(r@), self.recorded()),
    {
        self.entries.keys()
    }

    /// The entry for `path`, if the command has been run before.
    pub fn lookup_by_output(&self, path: &str) -> (r: Option<&LogEntry>)
        ensures
            match r {
                Some(e) => self.recorded().contains_key(path@) && e@ == self.recorded()[path@]
                    && e.output@ == path@,
                None => !self.recorded().contains_key(path@),
            },
    {
        proof {
            use_type_invariant(self);
        }
        self.entries.get(path)
    }

    /// True if the log should be rewritten (too many stale entries).
    pub fn needs_recompaction(&self) -> (r: bool)
        ensures
            r == self.stale(),
    {
        self.needs_recompaction
    }

    /// Insert or replace an entry.
    pub fn insert_entry(&mut self, entry: LogEntry)
        ensures
            final(self).recorded() == old(self).recorded().insert(entry.output@, entry@),
            final(self).stale() == old(self).stale(),
    {
        proof {
            use_type_invariant(&*self);
        }
        let key = entry.output.clone();
        let mut entries: TextMap<LogEntry> = TextMap::new();
        std::mem::swap(&mut entries, &mut self.entries);
        entries.insert(key.as_str(), entry);
        self.entries = entries;
        assert(self.recorded() =~= old(self).recorded().insert(entry.output@, entry@));
    }

    /// Load a log from the contents of its file, `None` when there is none.
    ///
    /// A log written by an unsupported version is of no use: it is reported as
    /// [`LoadStatus::NotFound`] with a warning, and its file should be removed.
    /// A missing log simply forces a rebuild.
    pub fn load(&mut self, contents: Option<&[u8]>) -> (r: LoadResult)
        ensures
            match contents {
                None => r.status == LoadStatus::NotFound && r.warning is None && final(
                    self).recorded() == old(self).recorded() && final(self).stale() == old(
                    self).stale(),
                Some(c) => match lines_read(c@, 0, load_start(old(self).recorded())) {
                    Err(m) => r.status == LoadStatus::NotFound && r.warning is Some
                        && r.warning->0@ == m && final(self).recorded() == Map::<
                        Seq<char>,
                        EntryView,
                    >::empty() && final(self).stale() == old(self).stale(),
                    Ok(s) => r.status == LoadStatus::Success && r.warning is None && final(
                        self).recorded() == s.entries && final(self).stale() == (old(
                        self).stale() || is_mostly_stale(s)),
                },
            },
    {
        let c = match contents {
            None => {
                return LoadResult { status: LoadStatus::NotFound, warning: None };
            },
            Some(c) => c,
        };
        let len: usize = c.len();
        let ghost start = load_start(self.recorded());
        let ghost want = lines_read(c@, 0, start);
        let mut progress = Progress { version: 0, unique: 0, total: 0, any: false };
        let mut p: usize = 0;
        let mut more: bool = true;
        assert(progress.loading(self.recorded()) == start);
        while more
            invariant
                contents == Some(c),
                len == c@.len(),
                p <= len,
                start == load_start(old(self).recorded()),
                want == lines_read(c@, 0, start),
                self.stale() == old(self).stale(),
                progress.unique <= progress.total <= p + (if more { 0int } else { 1int }),
                more ==> lines_read(c@, p as int, progress.loading(self.recorded())) == want,
                !more ==> want == Ok::<Loading, Seq<char>>(progress.loading(self.recorded())),
            decreases len - p, (if more { 1int } else { 0int }),
        {
            let mut end: usize = p;
            while end < len && c[end] != 10
                invariant
                    len == c@.len(),
                    p <= end <= len,
                    scan(c@, end as int, not_newline()) == scan(c@, p as int, not_newline()),
                decreases len - end,
            {
                end += 1;
            }
            match self.load_line(&mut progress, vstd::slice::slice_subrange(c, p, end)) {
                Some(m) => {
                    self.entries = TextMap::new();
                    assert(self.recorded() =~= Map::<Seq<char>, EntryView>::empty());
                    return LoadResult { status: LoadStatus::NotFound, warning: Some(m) };
                },
                None => {},
            }
            if end >= len {
                p = len;
                more = false;
            } else {
                p = end + 1;
            }
        }
        if progress.any && progress.total > 100 && progress.total > progress.unique * 3 {
            proof {
                use_type_invariant(&*self);
            }
            self.needs_recompaction = true;
        }
        LoadResult { status: LoadStatus::Success, warning: None }
    }

    /// Take in one line; returns why the log is of no use, if it is.
    fn load_line(&mut self, progress: &mut Progress, raw: &[u8]) -> (r: Option<String>)
        requires
            old(progress).total < 0xffff_ffff_ffff_ffff_ffff,
            old(progress).unique <= old(progress).total,
        ensures
            final(self).stale() == old(self).stale(),
            final(progress).unique <= final(progress).total <= old(progress).total + 1,
            match (r, line_read(old(progress).loading(old(self).recorded()), raw@)) {
                (Some(m), Err(w)) => m@ == w,
                (None, Ok(s)) => s == final(progress).loading(final(self).recorded()),
                _ => false,
            },
    {
        proof {
            reveal(line_read);
        }
        if raw.len() == 0 {
            return None;
        }
        let line = string_from_utf8_lossy(raw);
        progress.any = true;
        if progress.version == 0 {
            let version: i64 = parse_version_line(line.as_str());
            progress.version = version;
            if version < CURRENT_VERSION {
                return Some("build log version is too old; starting over".to_owned());
            }
            if version > CURRENT_VERSION {
                return Some("build log version is too new; starting over".to_owned());
            }
            return None;
        }
        match parse_entry(line.as_str()) {
            None => {},
            Some(entry) => {
                progress.total = progress.total + 1;
                if !self.entries.contains_key(entry.output.as_str()) {
                    progress.unique = progress.unique + 1;
                }
                self.insert_entry(entry);
            },
        }
        None
    }

    /// Record that `edge` ran, updating every one of its outputs. Returns the
    /// lines to append to the log.
    pub fn record_command(
        &mut self,
        state: &State,
        edge: EdgeId,
        start_time: i32,
        end_time: i32,
        mtime: i64,
    ) -> (r: String)
        requires
            state.wf(),
            edge.0 < state@.edges.len(),
        ensures
            ({
                let e = edge.0 as int;
                let hash = rapidhash_of(encode_utf8(state@.hashed_command(e)));
                let entry = ran(hash, start_time, end_time, mtime);
                let outputs = state@.edges[e].outputs;
                &&& final(self).recorded() == with_recorded(
                    old(self).recorded(),
                    state@,
                    outputs,
                    entry,
                )
                &&& r@ == recorded_lines(state@, outputs, entry)
                &&& final(self).stale() == old(self).stale()
            }),
    {
        let command = state.edge_command_for_hash(edge);
        let command_hash: u64 = hash_command(command.as_str());
        let ghost entry = ran(command_hash, start_time, end_time, mtime);
        let outputs = state.edge(edge).outputs();
        proof {
            state.lemma_wf();
            assert(state@.edge_ok(state@.edges[edge.0 as int]));
        }
        let mut out = String::new();
        let mut i: usize = 0;
        assert(outputs@.take(0) =~= Seq::empty());
        while i < outputs.len()
            invariant
                i <= outputs@.len(),
                nodes_below(outputs@, state@.nodes.len()),
                entry == ran(command_hash, start_time, end_time, mtime),
                self.stale() == old(self).stale(),
                self.recorded() == with_recorded(
                    old(self).recorded(),
                    state@,
                    outputs@.take(i as int),
                    entry,
                ),
                out@ == recorded_lines(state@, outputs@.take(i as int), entry),
            decreases outputs@.len() - i,
        {
            proof {
                assert(outputs@[i as int].0 < state@.nodes.len());
                assert(outputs@.take(i + 1).drop_last() =~= outputs@.take(i as int));
            }
            let path = state.node(outputs[i]).path_shared();
            let e = LogEntry { output: path, command_hash, start_time, end_time, mtime };
            push_entry(&mut out, e.output.as_str(), &e);
            self.insert_entry(e);
            i += 1;
        }
        assert(outputs@.take(outputs@.len() as int) =~= outputs@);
        out
    }

    /// The text of a log of all entries.
    pub fn text(&self) -> (r: String)
        ensures
            is_log_text(r@, self.recorded()),
    {
        let keys = self.entries.keys();
        let ghost k = texts(keys@);
        let ghost m = self.recorded();
        assert(are_keys(k, m));
        let mut out = String::new();
        out.append("# ninja log v7\n");
        let mut i: usize = 0;
        assert(k.take(0) =~= Seq::empty());
        assert(out@ =~= header_line() + entry_lines(k.take(0), m));
        while i < keys.len()
            invariant
                i <= keys.len(),
                k == texts(keys@),
                m == self.recorded(),
                are_keys(k, m),
                out@ == header_line() + entry_lines(k.take(i as int), m),
            decreases keys.len() - i,
        {
            let key = &keys[i];
            assert(k[i as int] == key@);
            assert(k.contains(key@));
            assert(k.take(i + 1).drop_last() =~= k.take(i as int));
            match self.entries.get(key.as_str()) {
                Some(e) => {
                    assert(e@ == m[key@]);
                    push_entry(&mut out, key.as_str(), e);
                    assert(out@ =~= header_line() + entry_lines(k.take(i + 1), m));
                },
                None => {
                    assert(false);
                },
            }
            i += 1;
        }
        assert(k.take(keys@.len() as int) =~= k);
        out
    }
}

/// Whether `outputs` select the output `k`: they name it, or name nothing.
pub open spec fn selects(outputs: Seq<Seq<char>>, k: Seq<char>) -> bool {
    outputs.len() == 0 || outputs.contains(k)
}

/// The entries with the mtimes of the selected outputs as they are on disk.
pub open spec fn restated<D: DiskInterface>(
    entries: Entries,
    m: D::Model,
    outputs: Seq<Seq<char>>,
) -> Entries {
    Map::new(
        |k: Seq<char>| entries.contains_key(k),
        |k: Seq<char>|
            if selects(outputs, k) {
                EntryView { mtime: D::mtime_of(m, k)->Ok_0, ..entries[k] }
            } else {
                entries[k]
            },
    )
}

/// The entries of which those before `end`, in the order of their paths, have
/// the mtimes of the selected outputs as they are on disk.
pub open spec fn restated_before<D: DiskInterface>(
    entries: Entries,
    m: D::Model,
    outputs: Seq<Seq<char>>,
    end: Seq<char>,
) -> Entries {
    Map::new(
        |k: Seq<char>| entries.contains_key(k),
        |k: Seq<char>|
            if crate::text::text_less(k, end) {
                restated::<D>(entries, m, outputs)[k]
            } else {
                entries[k]
            },
    )
}

/// Whether `k` is the first of the selected outputs, in the order of their
/// paths, that cannot be looked at, and `e` says why.
pub open spec fn first_unseen<D: DiskInterface>(
    entries: Entries,
    m: D::Model,
    outputs: Seq<Seq<char>>,
    k: Seq<char>,
    e: ErrorView,
) -> bool {
    &&& entries.contains_key(k)
    &&& selects(outputs, k)
    &&& D::mtime_of(m, k) == Err::<i64, ErrorView>(e)
    &&& forall|j: Seq<char>| #[trigger]
        entries.contains_key(j) && selects(outputs, j) && crate::text::text_less(j, k)
            ==> D::mtime_of(m, j) is Ok
}

/// Whether `f` may answer `dead` when asked about the path `k`.
pub open spec fn judged<F: Fn(&str) -> bool>(f: F, k: Seq<char>, dead: bool) -> bool {
    exists|p: &str| p@ == k && #[trigger] f.ensures((p,), dead)
}

fn names_output(outputs: &[String], key: &str) -> (r: bool)
    ensures
        r == selects(texts(outputs@), key@),
{
    let ghost t = texts(outputs@);
    if outputs.len() == 0 {
        return true;
    }
    let mut i: usize = 0;
    while i < outputs.len()
        invariant
            i <= outputs@.len(),
            t == texts(outputs@),
            t.len() > 0,
            forall|k: int| 0 <= k < i ==> #[trigger] t[k] != key@,
        decreases outputs@.len() - i,
    {
        assert(t[i as int] == outputs@[i as int]@);
        if str_eq(outputs[i].as_str(), key) {
            assert(t.contains(key@));
            return true;
        }
        i += 1;
    }
    false
}

fn copy_texts(v: &Vec<String>) -> (r: Vec<String>)
    ensures
        texts(r@) == texts(v@),
{
    let mut out: Vec<String> = Vec::new();
    let mut i: usize = 0;
    while i < v.len()
        invariant
            i <= v.len(),
            out@.len() == i,
            forall|k: int| 0 <= k < i ==> (#[trigger] out@[k])@ == v@[k]@,
        decreases v.len() - i,
    {
        out.push(v[i].clone());
        i += 1;
    }
    assert(texts(out@) =~= texts(v@));
    out
}

impl BuildLog {
    fn remove_entry(&mut self, key: &str)
        ensures
            final(self).recorded() == old(self).recorded().remove(key@),
            final(self).stale() == old(self).stale(),
    {
        proof {
            use_type_invariant(&*self);
        }
        let mut entries: TextMap<LogEntry> = TextMap::new();
        std::mem::swap(&mut entries, &mut self.entries);
        entries.remove(key);
        self.entries = entries;
        assert(self.recorded() =~= old(self).recorded().remove(key@));
    }

    /// Drop entries for outputs that are no longer part of the build, and
    /// return the text of the log that is left.
    ///
    /// `is_path_dead` reports whether an output is no longer part of the build.
    pub fn recompact<F: Fn(&str) -> bool>(&mut self, is_path_dead: F) -> (r: String)
        requires
            forall|p: &str| is_path_dead.requires((p,)),
        ensures
            is_log_text(r@, final(self).recorded()),
            !final(self).stale(),
            forall|k: Seq<char>| #[trigger]
                final(self).recorded().contains_key(k) ==> old(self).recorded().contains_key(k)
                    && final(self).recorded()[k] == old(self).recorded()[k],
            forall|k: Seq<char>| #[trigger]
                old(self).recorded().contains_key(k) ==> judged(
                    is_path_dead,
                    k,
                    !final(self).recorded().contains_key(k),
                ),
    {
        let ghost before = self.recorded();
        let keys = copy_texts(self.entries.keys());
        let ghost ks = texts(keys@);
        assert(are_keys(ks, before));
        let mut i: usize = 0;
        assert forall|j: int| 0 <= j < ks.len() implies self.recorded().contains_key(
            #[trigger] ks[j],
        ) by {
            assert(ks.contains(ks[j]));
        }
        while i < keys.len()
            invariant
                i <= keys.len(),
                ks == texts(keys@),
                before == old(self).recorded(),
                are_keys(ks, before),
                forall|p: &str| is_path_dead.requires((p,)),
                forall|k: Seq<char>| #[trigger]
                    self.recorded().contains_key(k) ==> before.contains_key(k)
                        && self.recorded()[k] == before[k],
                forall|j: int|
                    0 <= j < i ==> judged(
                        is_path_dead,
                        #[trigger] ks[j],
                        !self.recorded().contains_key(ks[j]),
                    ),
                forall|j: int| i <= j < ks.len() ==> self.recorded().contains_key(#[trigger] ks[j]),
            decreases keys.len() - i,
        {
            let ghost r0 = self.recorded();
            let key = keys[i].as_str();
            assert(ks[i as int] == key@);
            let dead: bool = is_path_dead(key);
            if dead {
                self.remove_entry(key);
            }
            proof {
                assert forall|j: int| 0 <= j < ks.len() && j != i implies self.recorded().contains_key(
                    #[trigger] ks[j],
                ) == r0.contains_key(ks[j]) by {
                    lemma_ascending_distinct(ks, i as int, j);
                }
                assert(judged(is_path_dead, key@, dead));
            }
            i += 1;
        }
        proof {
            use_type_invariant(&*self);
            assert forall|k: Seq<char>| #[trigger] before.contains_key(k) implies judged(
                is_path_dead,
                k,
                !self.recorded().contains_key(k),
            ) by {
                assert(ks.contains(k));
                let j = choose|j: int| 0 <= j < ks.len() && ks[j] == k;
                assert(ks[j] == k);
            }
        }
        let ghost after = self.recorded();
        self.needs_recompaction = false;
        assert(self.recorded() =~= after);
        self.text()
    }

    /// Re-stat the outputs in the log, and return the text of the log with
    /// their mtimes.
    ///
    /// When `outputs` is non-empty, only those paths are updated.
    pub fn restat<D: DiskInterface>(&mut self, disk: &D, outputs: &[String]) -> (r: Result<
        String,
        Error,
    >)
        ensures
            final(self).stale() == old(self).stale(),
            match r {
                Ok(text) => {
                    &&& forall|k: Seq<char>| #[trigger]
                        old(self).recorded().contains_key(k) && selects(texts(outputs@), k)
                            ==> D::mtime_of(disk.model(), k) is Ok
                    &&& final(self).recorded() == restated::<D>(
                        old(self).recorded(),
                        disk.model(),
                        texts(outputs@),
                    )
                    &&& is_log_text(text@, final(self).recorded())
                },
                Err(e) => exists|k: Seq<char>| #[trigger]
                    first_unseen::<D>(
                        old(self).recorded(),
                        disk.model(),
                        texts(outputs@),
                        k,
                        e@,
                    ) && final(self).recorded() == restated_before::<D>(
                        old(self).recorded(),
                        disk.model(),
                        texts(outputs@),
                        k,
                    ),
            },
    {
        let ghost before = self.recorded();
        let ghost outs = texts(outputs@);
        let ghost m = disk.model();
        let keys = copy_texts(self.entries.keys());
        let ghost ks = texts(keys@);
        assert(are_keys(ks, before));
        let mut i: usize = 0;
        while i < keys.len()
            invariant
                i <= keys.len(),
                ks == texts(keys@),
                outs == texts(outputs@),
                m == disk.model(),
                before == old(self).recorded(),
                are_keys(ks, before),
                self.stale() == old(self).stale(),
                self.recorded().dom() == before.dom(),
                forall|j: int|
                    0 <= j < i ==> (selects(outs, #[trigger] ks[j]) ==> D::mtime_of(m, ks[j]) is Ok)
                        && self.recorded()[ks[j]] == restated::<D>(before, m, outs)[ks[j]],
                forall|j: int| i <= j < ks.len() ==> self.recorded()[#[trigger] ks[j]] == before[ks[j]],
            decreases keys.len() - i,
        {
            let ghost r0 = self.recorded();
            let key = keys[i].as_str();
            assert(ks[i as int] == key@);
            assert(ks.contains(key@));
            assert(before.contains_key(key@));
            if names_output(outputs, key) {
                match disk.stat(key) {
                    Err(e) => {
                        proof {
                            assert forall|j: Seq<char>| #[trigger]
                                before.contains_key(j) && selects(outs, j)
                                    && crate::text::text_less(j, key@) implies D::mtime_of(
                                m,
                                j,
                            ) is Ok by {
                                assert(ks.contains(j));
                                let x = choose|x: int| 0 <= x < ks.len() && ks[x] == j;
                                if x >= i {
                                    if x == i {
                                        crate::text::lemma_text_less_irreflexive(j);
                                    } else {
                                        crate::text::lemma_text_less_transitive(j, key@, j);
                                        crate::text::lemma_text_less_irreflexive(j);
                                    }
                                }
                                assert(ks[x] == j);
                            }
                            assert(first_unseen::<D>(before, m, outs, key@, e@));
                            let want = restated_before::<D>(before, m, outs, key@);
                            assert forall|j: Seq<char>| #[trigger]
                                before.contains_key(j) implies self.recorded()[j] == want[j] by {
                                assert(ks.contains(j));
                                let x = choose|x: int| 0 <= x < ks.len() && ks[x] == j;
                                assert(ks[x] == j);
                                if x == i {
                                    crate::text::lemma_text_less_irreflexive(j);
                                } else if x > i && crate::text::text_less(j, key@) {
                                    crate::text::lemma_text_less_transitive(j, key@, j);
                                    crate::text::lemma_text_less_irreflexive(j);
                                }
                            }
                            assert(self.recorded() =~= want);
                        }
                        return Err(e);
                    },
                    Ok(mtime) => {
                        let fresh = match self.entries.get(key) {
                            Some(e) => LogEntry {
                                output: key.to_owned(),
                                command_hash: e.command_hash,
                                start_time: e.start_time,
                                end_time: e.end_time,
                                mtime,
                            },
                            None => LogEntry::new(key),
                        };
                        assert(self.recorded().contains_key(key@));
                        assert(fresh@ == (EntryView { mtime, ..before[key@] }));
                        self.insert_entry(fresh);
                        assert(self.recorded().dom() =~= before.dom());
                    },
                }
            }
            proof {
                assert forall|j: int| 0 <= j < ks.len() && j != i implies self.recorded()[
                    #[trigger] ks[j]] == r0[ks[j]] by {
                    lemma_ascending_distinct(ks, i as int, j);
                    assert(ks.contains(ks[j]));
                }
            }
            i += 1;
        }
        proof {
            assert(self.recorded() =~= restated::<D>(before, m, outs)) by {
                assert forall|k: Seq<char>| #[trigger] before.contains_key(k) implies
                    self.recorded()[k] == restated::<D>(before, m, outs)[k] by {
                    assert(ks.contains(k));
                    let x = choose|x: int| 0 <= x < ks.len() && ks[x] == k;
                    assert(ks[x] == k);
                }
            }
            assert forall|k: Seq<char>| #[trigger]
                before.contains_key(k) && selects(outs, k) implies D::mtime_of(m, k) is Ok by {
                assert(ks.contains(k));
                let x = choose|x: int| 0 <= x < ks.len() && ks[x] == k;
                assert(ks[x] == k);
            }
        }
        Ok(self.text())
    }
}

proof fn lemma_ascending_distinct(ks: Seq<Seq<char>>, i: int, j: int)
    requires
        ascending(ks),
        0 <= i < ks.len(),
        0 <= j < ks.len(),
        i != j,
    ensures
        ks[i] != ks[j],
{
    crate::text::lemma_text_less_irreflexive(ks[i]);
    if i < j {
        assert(crate::text::text_less(ks[i], ks[j]));
    } else {
        assert(crate::text::text_less(ks[j], ks[i]));
    }
}

/// Whether an output can stand in a log: no character of it ends a field or a
/// line.
pub open spec fn is_loggable(output: Seq<char>) -> bool {
    !output.contains('\t') && !output.contains('\n')
}

spec fn no_tabs(s: Seq<char>) -> bool {
    forall|i: int| 0 <= i < s.len() ==> #[trigger] s[i] != '\t'
}

proof fn lemma_field_end(s: Seq<char>, from: int, field: Seq<char>)
    requires
        0 <= from,
        from + field.len() < s.len(),
        s.subrange(from, from + field.len()) == field,
        s[from + field.len()] == '\t',
        no_tabs(field),
    ensures
        scan(s, from, not_tab()) == from + field.len(),
{
    assert forall|k: int| from <= k < from + field.len() implies not_tab()(#[trigger] s[k]) by {
        assert(s.subrange(from, from + field.len())[k - from] == s[k]);
        assert(field[k - from] != '\t');
    }
    lemma_scan_is(s, from, not_tab(), from + field.len());
}

spec fn fields(
    f1: Seq<char>,
    f2: Seq<char>,
    f3: Seq<char>,
    f4: Seq<char>,
    f5: Seq<char>,
) -> Seq<char> {
    f1 + seq!['\t'] + f2 + seq!['\t'] + f3 + seq!['\t'] + f4 + seq!['\t'] + f5
}

proof fn lemma_fields(
    f1: Seq<char>,
    f2: Seq<char>,
    f3: Seq<char>,
    f4: Seq<char>,
    f5: Seq<char>,
)
    requires
        no_tabs(f1),
        no_tabs(f2),
        no_tabs(f3),
        no_tabs(f4),
    ensures
        ({
            let s = fields(f1, f2, f3, f4, f5);
            let a = f1.len() as int;
            let b = a + 1 + f2.len();
            let c = b + 1 + f3.len();
            let d = c + 1 + f4.len();
            let n = d + 1 + f5.len();
            &&& s.len() == n
            &&& scan(s, 0, not_tab()) == a
            &&& scan(s, a + 1, not_tab()) == b
            &&& scan(s, b + 1, not_tab()) == c
            &&& scan(s, c + 1, not_tab()) == d
            &&& s.subrange(0, a) == f1
            &&& s.subrange(a + 1, b) == f2
            &&& s.subrange(b + 1, c) == f3
            &&& s.subrange(c + 1, d) == f4
            &&& s.subrange(d + 1, n) == f5
        }),
{
    let s = fields(f1, f2, f3, f4, f5);
    let a = f1.len() as int;
    let b = a + 1 + f2.len();
    let c = b + 1 + f3.len();
    let d = c + 1 + f4.len();
    let n = d + 1 + f5.len();
    assert(s.len() == n);
    assert(s.subrange(0, a) =~= f1);
    assert(s.subrange(a + 1, b) =~= f2);
    assert(s.subrange(b + 1, c) =~= f3);
    assert(s.subrange(c + 1, d) =~= f4);
    assert(s.subrange(d + 1, n) =~= f5);
    assert(s[a] == '\t' && s[b] == '\t' && s[c] == '\t' && s[d] == '\t');
    lemma_field_end(s, 0, f1);
    lemma_field_end(s, a + 1, f2);
    lemma_field_end(s, b + 1, f3);
    lemma_field_end(s, c + 1, f4);
}

spec fn is_free_of(s: Seq<char>, c: char) -> bool {
    forall|i: int| 0 <= i < s.len() ==> #[trigger] s[i] != c
}

proof fn lemma_fields_free_of(
    f1: Seq<char>,
    f2: Seq<char>,
    f3: Seq<char>,
    f4: Seq<char>,
    f5: Seq<char>,
    x: char,
)
    requires
        x != '\t',
        is_free_of(f1, x),
        is_free_of(f2, x),
        is_free_of(f3, x),
        is_free_of(f4, x),
        is_free_of(f5, x),
    ensures
        is_free_of(fields(f1, f2, f3, f4, f5), x),
{
    let s = fields(f1, f2, f3, f4, f5);
    let a = f1.len() as int;
    let b = a + 1 + f2.len();
    let c = b + 1 + f3.len();
    let d = c + 1 + f4.len();
    assert forall|i: int| 0 <= i < s.len() implies #[trigger] s[i] != x by {
        if i < a {
            assert(s[i] == f1[i]);
        } else if a < i < b {
            assert(s[i] == f2[i - a - 1]);
        } else if b < i < c {
            assert(s[i] == f3[i - b - 1]);
        } else if c < i < d {
            assert(s[i] == f4[i - c - 1]);
        } else if d < i {
            assert(s[i] == f5[i - d - 1]);
        }
    }
}

/// A line that records an entry is read as that entry.
pub proof fn law_entry_reads_back(output: Seq<char>, e: EntryView)
    requires
        is_loggable(output),
    ensures
        entry_line(output, e).len() > 0,
        entry_line(output, e).last() == '\n',
        !entry_line(output, e).drop_last().contains('\n'),
        entry_of(entry_line(output, e).drop_last()) == Some((output, e)),
{
    reveal_strlit("\t");
    reveal_strlit("\n");
    let f1 = signed_decimal(e.start_time as int);
    let f2 = signed_decimal(e.end_time as int);
    let f3 = signed_decimal(e.mtime as int);
    let f5 = hexadecimal(e.command_hash as nat);
    law_number_reads_back(e.start_time as int, i32::MIN as int, i32::MAX as int);
    law_number_reads_back(e.end_time as int, i32::MIN as int, i32::MAX as int);
    law_number_reads_back(e.mtime as int, i64::MIN as int, i64::MAX as int);
    law_hexadecimal_reads_back(e.command_hash as nat);
    law_hash_reads_back(e.command_hash);
    let line = entry_line(output, e);
    let s = fields(f1, f2, f3, output, f5);
    assert("\t"@ =~= seq!['\t']);
    assert("\n"@ =~= seq!['\n']);
    assert(line == s + seq!['\n']);
    assert(line.drop_last() =~= s);
    assert(no_tabs(output) && is_free_of(output, '\n')) by {
        assert forall|i: int| 0 <= i < output.len() implies #[trigger] output[i] != '\t'
            && output[i] != '\n' by {
            assert(output.contains(output[i]));
        }
    }
    lemma_fields(f1, f2, f3, output, f5);
    lemma_fields_free_of(f1, f2, f3, output, f5, '\n');
    let n = s.len() as int;
    assert(s[n - 1] == f5[f5.len() - 1]);
    assert(!line_end()(s[n - 1]));
    assert(scan_back(s, n, line_end()) == n);
    assert(s.take(n) =~= s);
    if s.contains('\n') {
        let i = choose|i: int| 0 <= i < s.len() && s[i] == '\n';
        assert(s[i] != '\n');
    }
}

spec fn tail_lines(keys: Seq<Seq<char>>, entries: Entries, k: int) -> Seq<char>
    decreases keys.len() - k,
{
    if 0 <= k < keys.len() {
        entry_line(keys[k], entries[keys[k]]) + tail_lines(keys, entries, k + 1)
    } else {
        Seq::empty()
    }
}

proof fn lemma_tail_lines(keys: Seq<Seq<char>>, entries: Entries, k: int)
    requires
        0 <= k <= keys.len(),
    ensures
        entry_lines(keys, entries) == entry_lines(keys.take(k), entries) + tail_lines(
            keys,
            entries,
            k,
        ),
    decreases keys.len() - k,
{
    if k < keys.len() {
        lemma_tail_lines(keys, entries, k + 1);
        assert(keys.take(k + 1).drop_last() =~= keys.take(k));
        assert(entry_lines(keys, entries) =~= entry_lines(keys.take(k), entries) + tail_lines(
            keys,
            entries,
            k,
        ));
    } else {
        assert(keys.take(k) =~= keys);
        assert(entry_lines(keys, entries) =~= entry_lines(keys.take(k), entries) + tail_lines(
            keys,
            entries,
            k,
        ));
    }
}

proof fn lemma_first_line(c: Seq<u8>, p: int, line: Seq<char>, rest: Seq<char>)
    requires
        0 <= p <= c.len(),
        !line.contains('\n'),
        c.skip(p) == encode_utf8(line.push('\n') + rest),
    ensures
        scan(c, p, not_newline()) == p + encode_utf8(line).len(),
        p + encode_utf8(line).len() < c.len(),
        utf8_lossy(c.subrange(p, p + encode_utf8(line).len())) == line,
        c.skip(p + encode_utf8(line).len() + 1) == encode_utf8(rest),
{
    let w = encode_utf8(line);
    lemma_encode_concat(line, seq!['\n']);
    lemma_encode_newline();
    assert(line + seq!['\n'] =~= line.push('\n'));
    lemma_encode_concat(line.push('\n'), rest);
    let t = c.skip(p);
    assert(t =~= w + seq![10u8] + encode_utf8(rest));
    let e = p + w.len();
    assert(c[e] == t[w.len() as int]);
    lemma_encode_no_newline(line);
    assert forall|k: int| p <= k < e implies not_newline()(#[trigger] c[k]) by {
        assert(c[k] == t[k - p]);
        assert(t[k - p] == w[k - p]);
    }
    lemma_scan_is(c, p, not_newline(), e);
    assert(c.subrange(p, e) =~= w) by {
        assert forall|k: int| 0 <= k < w.len() implies c.subrange(p, e)[k] == w[k] by {
            assert(c[p + k] == t[k]);
        }
    }
    encode_utf8_valid_utf8(line);
    encode_utf8_decode_utf8(line);
    assert(c.skip(e + 1) =~= encode_utf8(rest)) by {
        assert forall|k: int| 0 <= k < encode_utf8(rest).len() implies c.skip(e + 1)[k]
            == encode_utf8(rest)[k] by {
            assert(c[e + 1 + k] == t[w.len() + 1 + k]);
        }
    }
}

proof fn lemma_lines_read_back(
    c: Seq<u8>,
    p: int,
    keys: Seq<Seq<char>>,
    entries: Entries,
    k: int,
    s: Loading,
)
    requires
        0 <= p <= c.len(),
        0 <= k <= keys.len(),
        c.skip(p) == encode_utf8(tail_lines(keys, entries, k)),
        s.version == CURRENT_VERSION,
        forall|i: int| 0 <= i < keys.len() ==> is_loggable(#[trigger] keys[i]),
    ensures
        lines_read(c, p, s) matches Ok(t) && {
            &&& t.version == CURRENT_VERSION
            &&& forall|x: Seq<char>| #[trigger]
                t.entries.contains_key(x) <==> s.entries.contains_key(x) || exists|i: int|
                    k <= i < keys.len() && #[trigger] keys[i] == x
            &&& forall|x: Seq<char>| #[trigger]
                t.entries.contains_key(x) ==> t.entries[x] == if exists|i: int|
                    k <= i < keys.len() && #[trigger] keys[i] == x {
                    entries[x]
                } else {
                    s.entries[x]
                }
        },
    decreases keys.len() - k,
{
    reveal(line_read);
    if k < keys.len() {
        let line = entry_line(keys[k], entries[keys[k]]);
        law_entry_reads_back(keys[k], entries[keys[k]]);
        let l = line.drop_last();
        let rest = tail_lines(keys, entries, k + 1);
        assert(line =~= l.push('\n'));
        lemma_first_line(c, p, l, rest);
        let e = p + encode_utf8(l).len();
        let raw = c.subrange(p, e);
        assert(raw.len() > 0) by {
            if raw.len() == 0 {
                vstd::utf8::encode_utf8_decode_utf8(l);
                assert(encode_utf8(l) =~= Seq::<u8>::empty());
                vstd::utf8::encode_utf8_decode_utf8(Seq::<char>::empty());
                assert(encode_utf8(Seq::<char>::empty()) =~= Seq::<u8>::empty());
                assert(l == Seq::<char>::empty());
                assert(entry_of(l) is Some);
            }
        }
        let n = line_read(s, raw)->Ok_0;
        assert(n.entries == s.entries.insert(keys[k], entries[keys[k]]));
        lemma_lines_read_back(c, e + 1, keys, entries, k + 1, n);
        let t = lines_read(c, p, s)->Ok_0;
        assert(t == lines_read(c, e + 1, n)->Ok_0);
        assert forall|x: Seq<char>| #[trigger]
            t.entries.contains_key(x) <==> s.entries.contains_key(x) || exists|i: int|
                k <= i < keys.len() && #[trigger] keys[i] == x by {
            if exists|i: int| k <= i < keys.len() && #[trigger] keys[i] == x {
                let i = choose|i: int| k <= i < keys.len() && #[trigger] keys[i] == x;
                if i > k {
                    assert(k + 1 <= i < keys.len() && keys[i] == x);
                }
            }
        }
        assert forall|x: Seq<char>| #[trigger] t.entries.contains_key(x) implies t.entries[x]
            == if exists|i: int| k <= i < keys.len() && #[trigger] keys[i] == x {
            entries[x]
        } else {
            s.entries[x]
        } by {
            if exists|i: int| k <= i < keys.len() && #[trigger] keys[i] == x {
                let i = choose|i: int| k <= i < keys.len() && #[trigger] keys[i] == x;
                if i > k {
                    assert(k + 1 <= i < keys.len() && keys[i] == x);
                }
            }
        }
    } else {
        assert(encode_utf8(tail_lines(keys, entries, k)) =~= Seq::<u8>::empty());
        assert(c.skip(p).len() == 0);
        assert(p == c.len());
        assert(c.subrange(p, p) =~= Seq::<u8>::empty());
        assert(lines_read(c, p, s) == Ok::<Loading, Seq<char>>(s));
    }
}

/// Loading the log that was written gives back what was recorded, whatever
/// was recorded, as long as no output holds a tab or a line feed.
pub proof fn law_log_reads_back(text: Seq<char>, entries: Entries)
    requires
        is_log_text(text, entries),
        forall|k: Seq<char>| #[trigger] entries.contains_key(k) ==> is_loggable(k),
    ensures
        lines_read(encode_utf8(text), 0, load_start(Map::empty())) matches Ok(s) && s.entries
            == entries,
{
    let keys = choose|keys: Seq<Seq<char>>| #[trigger]
        are_keys(keys, entries) && text == header_line() + entry_lines(keys, entries);
    reveal_strlit("# ninja log v7\n");
    reveal_strlit("# ninja log v");
    reveal(line_read);
    let c = encode_utf8(text);
    let h = header_line().drop_last();
    let rest = entry_lines(keys, entries);
    assert(header_line() =~= h.push('\n'));
    assert(c.skip(0) =~= c);
    assert(!h.contains('\n'));
    lemma_first_line(c, 0, h, rest);
    let e = encode_utf8(h).len() as int;
    let raw = c.subrange(0, e);
    assert(h.take(13) =~= signature());
    assert(h.skip(13) =~= seq!['7']);
    assert(seq!['7'] =~= signed_decimal(7)) by {
        assert(crate::text::digit_char(7) == '7');
    }
    law_number_reads_back(7, i32::MIN as int, i32::MAX as int);
    assert(declared_version(h) == 7);
    assert(raw.len() > 0) by {
        if raw.len() == 0 {
            assert(encode_utf8(h) =~= Seq::<u8>::empty());
            vstd::utf8::encode_utf8_decode_utf8(h);
            vstd::utf8::encode_utf8_decode_utf8(Seq::<char>::empty());
            assert(encode_utf8(Seq::<char>::empty()) =~= Seq::<u8>::empty());
        }
    }
    let s = load_start(Map::empty());
    let n = line_read(s, raw)->Ok_0;
    assert(n.entries == s.entries && n.version == 7);
    lemma_tail_lines(keys, entries, 0);
    assert(keys.take(0) =~= Seq::empty());
    assert(entry_lines(keys.take(0), entries) + tail_lines(keys, entries, 0) =~= tail_lines(
        keys,
        entries,
        0,
    ));
    assert forall|i: int| 0 <= i < keys.len() implies is_loggable(#[trigger] keys[i]) by {
        assert(keys.contains(keys[i]));
    }
    lemma_lines_read_back(c, e + 1, keys, entries, 0, n);
    let t = lines_read(c, 0, s)->Ok_0;
    assert(t == lines_read(c, e + 1, n)->Ok_0);
    assert(t.entries =~= entries) by {
        assert forall|k: Seq<char>| t.entries.contains_key(k) <==> entries.contains_key(k) by {
            assert(keys.contains(k) <==> entries.contains_key(k));
            if entries.contains_key(k) {
                let i = choose|i: int| 0 <= i < keys.len() && keys[i] == k;
                assert(0 <= i < keys.len() && keys[i] == k);
            }
        }
    }
}

/// The entry that was read last for an output wins.
pub proof fn law_later_lines_win(s: Loading, raw: Seq<u8>)
    requires
        s.version == CURRENT_VERSION,
        raw.len() > 0,
        entry_of(utf8_lossy(raw)) is Some,
    ensures
        line_read(s, raw) matches Ok(t) && t.entries[(entry_of(utf8_lossy(raw))->0).0] == (entry_of(
            utf8_lossy(raw),
        )->0).1,
{
    reveal(line_read);
}

} // verus!
