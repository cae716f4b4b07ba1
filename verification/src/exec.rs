//! Running commands.
//!
//! [`CommandRunner`] is the interface to whatever executes edges. The rules
//! around it (how many commands may run, what an exit means) are here too.

use vstd::prelude::*;

use crate::error::Error;
use crate::state::{EdgeId, State};
use crate::text::{chars_of, string_of};

verus! {

use crate::text::scan;

/// A process exit code, where 0 is success and 130 means the command was
/// interrupted.
#[derive(Copy, Clone, PartialEq, Eq, Structural, Debug)]
pub struct ExitStatus(pub i32);

impl ExitStatus {
    /// The command succeeded.
    #[verifier::allow_in_spec]
    pub fn ok() -> ExitStatus
        returns
            ExitStatus(0),
    {
        ExitStatus(0)
    }

    /// The command failed in an unspecified way.
    #[verifier::allow_in_spec]
    pub fn failure() -> ExitStatus
        returns
            ExitStatus(1),
    {
        ExitStatus(1)
    }

    /// The command was interrupted (SIGINT/SIGTERM/SIGHUP).
    #[verifier::allow_in_spec]
    pub fn interruption() -> ExitStatus
        returns
            ExitStatus(130),
    {
        ExitStatus(130)
    }

    /// True if the command succeeded.
    #[verifier::allow_in_spec]
    pub fn success(self) -> bool
        returns
            self.0 == 0,
    {
        self.0 == 0
    }

    /// True if the command was interrupted.
    #[verifier::allow_in_spec]
    pub fn interrupted(self) -> bool
        returns
            self.0 == 130,
    {
        self.0 == 130
    }

    /// The raw code, for `exit()`.
    #[verifier::allow_in_spec]
    pub fn code(self) -> i32
        returns
            self.0,
    {
        self.0
    }
}

/// The result of running one edge's command.
#[derive(Clone, Debug)]
pub struct CommandResult {
    /// The edge that ran.
    pub edge: EdgeId,
    /// Its exit status.
    pub status: ExitStatus,
    /// Everything it wrote to stdout and stderr, in order.
    pub output: String,
}

impl CommandResult {
    /// True if the command succeeded.
    pub fn success(&self) -> (r: bool)
        ensures
            r == self.status.success(),
    {
        self.status.success()
    }
}

/// Executes the commands of a build.
///
/// Nothing is promised of what commands do: a runner may start processes,
/// pretend to, or send the commands elsewhere.
pub trait CommandRunner {
    /// How many more commands may be started right now.
    fn can_run_more(&self) -> usize;

    /// Start `edge`'s command.
    fn start_command(&mut self, state: &State, edge: EdgeId) -> Result<(), Error>;

    /// Wait for the next command to finish.
    ///
    /// Returns `None` if the build was interrupted.
    fn wait_for_command(&mut self) -> Option<CommandResult>;

    /// Edges whose commands are still running.
    fn active_edges(&self) -> Vec<EdgeId>;

    /// Stop all running commands.
    fn abort(&mut self);
}

/// A runner that pretends every command succeeds (`-n`).
#[derive(Debug)]
pub struct DryRunCommandRunner {
    started: Vec<EdgeId>,
}

impl View for DryRunCommandRunner {
    type V = Seq<EdgeId>;

    /// The commands that were started and not waited for.
    closed spec fn view(&self) -> Seq<EdgeId> {
        self.started@
    }
}

impl DryRunCommandRunner {
    /// A new dry-run runner.
    pub fn new() -> (r: DryRunCommandRunner)
        ensures
            r@ == Seq::<EdgeId>::empty(),
    {
        let r = DryRunCommandRunner { started: Vec::new() };
        assert(r@ =~= Seq::empty());
        r
    }
}

impl CommandRunner for DryRunCommandRunner {
    fn can_run_more(&self) -> (r: usize)
        ensures
            r == usize::MAX,
    {
        usize::MAX
    }

    fn start_command(&mut self, state: &State, edge: EdgeId) -> (r: Result<(), Error>)
        ensures
            r is Ok,
            final(self)@ == old(self)@.push(edge),
    {
        self.started.push(edge);
        Ok(())
    }

    fn wait_for_command(&mut self) -> (r: Option<CommandResult>)
        ensures
            match r {
                Some(c) => {
                    &&& old(self)@.len() > 0
                    &&& c.edge == old(self)@[0]
                    &&& c.status.success()
                    &&& c.output@.len() == 0
                    &&& final(self)@ == old(self)@.drop_first()
                },
                None => old(self)@.len() == 0 && final(self)@ == old(self)@,
            },
    {
        if self.started.len() == 0 {
            return None;
        }
        let edge = self.started.remove(0);
        assert(self@ =~= old(self)@.drop_first());
        Some(CommandResult { edge, status: ExitStatus::ok(), output: String::new() })
    }

    fn active_edges(&self) -> (r: Vec<EdgeId>)
        ensures
            r@.len() == 0,
    {
        Vec::new()
    }

    fn abort(&mut self)
        ensures
            final(self)@ == old(self)@,
    {
    }
}

/// The most commands that may run at a time: at least one, and few enough to
/// count in 32 bits.
pub open spec fn limit_of(parallelism: nat) -> nat {
    if parallelism < 1 {
        1
    } else if parallelism > 0x7fff_ffff {
        0x7fff_ffff
    } else {
        parallelism
    }
}

/// The most commands that may run at a time (`-j`).
pub fn job_limit(parallelism: usize) -> (r: usize)
    ensures
        r == limit_of(parallelism as nat),
{
    if parallelism < 1 {
        1
    } else if parallelism > 0x7fff_ffff {
        0x7fff_ffff
    } else {
        parallelism
    }
}

/// How many more commands may start when `outstanding` of `limit` run, and the
/// load average leaves room for `load_room`. One may always run.
pub open spec fn capacity_of(limit: nat, outstanding: nat, load_room: Option<i64>) -> nat {
    let free: int = if outstanding < limit {
        limit - outstanding
    } else {
        0
    };
    let room: int = match load_room {
        Some(l) => if l < free {
            l as int
        } else {
            free
        },
        None => free,
    };
    if room > 0 {
        room as nat
    } else if outstanding == 0 {
        1
    } else {
        0
    }
}

/// How many more commands may be started.
pub fn capacity(limit: usize, outstanding: usize, load_room: Option<i64>) -> (r: usize)
    ensures
        r == capacity_of(limit as nat, outstanding as nat, load_room),
{
    let mut room: i128 = if outstanding < limit {
        (limit - outstanding) as i128
    } else {
        0
    };
    if let Some(l) = load_room {
        if (l as i128) < room {
            room = l as i128;
        }
    }
    if room > 0 {
        room as usize
    } else if outstanding == 0 {
        1
    } else {
        0
    }
}

/// The exit status of a process that exited with `code`, or was ended by
/// `signal`. An interrupt, a hangup or a request to terminate is an
/// interruption; any other signal counts from 128, like in a shell.
pub open spec fn exit_of(code: Option<i32>, signal: Option<i32>) -> ExitStatus {
    match (code, signal) {
        (Some(c), _) => ExitStatus(c),
        (None, Some(s)) => if s == 1 || s == 2 || s == 15 {
            ExitStatus(130)
        } else {
            ExitStatus((128 + s) as i32)
        },
        (None, None) => ExitStatus(1),
    }
}

/// The exit status of a process, from how it ended.
pub fn map_status(code: Option<i32>, signal: Option<i32>) -> (r: ExitStatus)
    requires
        signal matches Some(s) ==> s <= i32::MAX - 128,
    ensures
        r == exit_of(code, signal),
{
    if let Some(c) = code {
        return ExitStatus(c);
    }
    match signal {
        Some(s) => if s == 1 || s == 2 || s == 15 {
            ExitStatus::interruption()
        } else {
            ExitStatus(128 + s)
        },
        None => ExitStatus::failure(),
    }
}

/// Accepts what separates the words of a command line.
pub open spec fn gap() -> spec_fn(char) -> bool {
    |c: char| c == ' ' || c == '\t'
}

/// Accepts what words of a command line consist of.
pub open spec fn in_word() -> spec_fn(char) -> bool {
    |c: char| c != ' ' && c != '\t'
}

/// Accepts what may stand between double quotes.
pub open spec fn unquoted() -> spec_fn(char) -> bool {
    |c: char| c != '"'
}

/// The program that a command line starts with, and the rest: what stands
/// between double quotes, if it starts with one and there is another, or else
/// its first word.
pub open spec fn program_split(command: Seq<char>) -> (Seq<char>, Seq<char>) {
    let i = scan(command, 0, gap());
    let end = scan(command, i + 1, unquoted());
    if i < command.len() && command[i] == '"' && end < command.len() {
        (command.subrange(i + 1, end), command.skip(end + 1))
    } else {
        let j = scan(command, i, in_word());
        (command.subrange(i, j), command.skip(j))
    }
}

/// Split a command line into its program and the rest, respecting double
/// quotes around the program name.
pub fn split_windows_command(command: &str) -> (r: (String, String))
    ensures
        (r.0@, r.1@) == program_split(command@),
{
    let v = chars_of(command);
    let n: usize = v.len();
    let mut i: usize = 0;
    while i < n && (v[i] == ' ' || v[i] == '\t')
        invariant
            i <= n == v@.len(),
            scan(v@, i as int, gap()) == scan(v@, 0, gap()),
        decreases n - i,
    {
        i += 1;
    }
    if i < n && v[i] == '"' {
        let mut end: usize = i + 1;
        while end < n && v[end] != '"'
            invariant
                i < end <= n == v@.len(),
                scan(v@, end as int, unquoted()) == scan(v@, i + 1, unquoted()),
            decreases n - end,
        {
            end += 1;
        }
        if end < n {
            let rest = string_of(v.as_slice(), end + 1, n);
            assert(rest@ =~= command@.skip(end + 1));
            return (string_of(v.as_slice(), i + 1, end), rest);
        }
    }
    let mut j: usize = i;
    while j < n && v[j] != ' ' && v[j] != '\t'
        invariant
            i <= j <= n == v@.len(),
            scan(v@, j as int, in_word()) == scan(v@, i as int, in_word()),
        decreases n - j,
    {
        j += 1;
    }
    let rest = string_of(v.as_slice(), j, n);
    assert(rest@ =~= command@.skip(j as int));
    (string_of(v.as_slice(), i, j), rest)
}

/// Something can always run: when nothing does, there is room for a command.
pub proof fn law_capacity_allows_progress(limit: nat, load_room: Option<i64>)
    ensures
        capacity_of(limit, 0, load_room) >= 1,
{
}

/// No more commands run than may: the room never exceeds what is left of the
/// limit, unless nothing runs at all.
pub proof fn law_capacity_keeps_the_limit(limit: nat, outstanding: nat, load_room: Option<i64>)
    requires
        0 < outstanding <= limit,
    ensures
        outstanding + capacity_of(limit, outstanding, load_room) <= limit,
{
}

} // verus!
