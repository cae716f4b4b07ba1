//! Progress reporting.
//!
//! [`Status`] is the interface that a build reports through; [`ConsoleStatus`]
//! works out what a terminal shows: a single-line progress display, status
//! format strings and failure output.

use vstd::prelude::*;
use vstd::string::*;

use crate::escape::{elide_middle_in_place, strip_ansi_escape_codes};
use crate::exec::ExitStatus;
use crate::state::{EdgeId, State};
use crate::text::{chars_of, push_decimal, push_repeated_char, push_signed, str_eq};

verus! {

use crate::escape::{elided, without_ansi};
use crate::state::{Escape, NodeId, StateView};
use crate::text::{decimal, repeated, signed_decimal, texts};

/// How much the build should print.
#[derive(Copy, Clone, PartialEq, Eq, Structural, Debug)]
pub enum Verbosity {
    /// Print nothing (used by tests).
    Quiet,
    /// Print command output but no progress line.
    NoStatusUpdate,
    /// Print progress and command output.
    Normal,
    /// Print full command lines instead of descriptions.
    Verbose,
}

impl Default for Verbosity {
    fn default() -> (r: Verbosity)
        ensures
            r == Verbosity::Normal,
    {
        Verbosity::Normal
    }
}

/// Receives progress information during a build.
///
/// What a status makes of the events of a build is a function of its model.
/// The functions that speak of the model stand in contracts only: an
/// implementation whose contracts are not checked leaves them out. The methods
/// that report anything but these events do nothing unless they are
/// implemented, so an embedder only needs to implement the parts it cares
/// about.
pub trait Status: Sized {
    /// What the status has made of what it was told.
    type Model;

    /// The model of this status.
    closed spec fn model(&self) -> Self::Model {
        arbitrary()
    }

    /// What one more event makes of a status, where `s` is the graph.
    closed spec fn heard(m: Self::Model, s: StateView, e: EventView) -> Self::Model {
        arbitrary()
    }

    /// An edge was added to the build plan.
    fn edge_added_to_plan(&mut self, _state: &State, _edge: EdgeId)
        requires
            _state.wf(),
            _edge.0 < _state@.edges.len(),
    {
    }

    /// An edge was removed from the plan (a `restat` made it unnecessary).
    fn edge_removed_from_plan(&mut self, _state: &State, _edge: EdgeId)
        requires
            _state.wf(),
            _edge.0 < _state@.edges.len(),
    {
    }

    /// The build is about to start running commands.
    fn build_started(&mut self) {
    }

    /// The build has finished.
    fn build_finished(&mut self) {
    }

    /// An edge's command has started.
    fn build_edge_started(&mut self, state: &State, edge: EdgeId, start_time_millis: i64)
        requires
            state.wf(),
            edge.0 < state@.edges.len(),
        ensures
            final(self).model() == Self::heard(
                old(self).model(),
                state@,
                EventView::EdgeStarted { edge, start: start_time_millis },
            ),
    ;

    /// An edge's command has finished.
    fn build_edge_finished(
        &mut self,
        state: &State,
        edge: EdgeId,
        start_time_millis: i64,
        end_time_millis: i64,
        status: ExitStatus,
        output: &str,
    )
        requires
            state.wf(),
            edge.0 < state@.edges.len(),
        ensures
            final(self).model() == Self::heard(
                old(self).model(),
                state@,
                EventView::EdgeFinished {
                    edge,
                    start: start_time_millis,
                    end: end_time_millis,
                    status,
                    output: output@,
                },
            ),
    ;

    /// `-d explain` diagnostics for the edge that is about to be reported.
    fn explanations(&mut self, lines: &[String])
        ensures
            forall|s: StateView|
                final(self).model() == #[trigger] Self::heard(
                    old(self).model(),
                    s,
                    EventView::Explanations(texts(lines@)),
                ),
    ;

    /// An error.
    fn error(&mut self, message: &str)
        ensures
            forall|s: StateView|
                final(self).model() == #[trigger] Self::heard(
                    old(self).model(),
                    s,
                    EventView::Error(message@),
                ),
    ;

    /// An informational message.
    fn info(&mut self, _message: &str) {
    }

    /// A warning.
    fn warning(&mut self, _message: &str) {
    }
}

/// Something that a [`Status`] is told while commands run.
#[derive(Debug)]
pub enum StatusEvent {
    /// See [`Status::explanations`].
    Explanations(Vec<String>),
    /// See [`Status::build_edge_started`].
    EdgeStarted { edge: EdgeId, start_time_millis: i64 },
    /// See [`Status::build_edge_finished`].
    EdgeFinished {
        edge: EdgeId,
        start_time_millis: i64,
        end_time_millis: i64,
        status: ExitStatus,
        output: String,
    },
    /// See [`Status::error`].
    Error(String),
}

/// A [`StatusEvent`] by what it says.
pub enum EventView {
    Explanations(Seq<Seq<char>>),
    EdgeStarted { edge: EdgeId, start: i64 },
    EdgeFinished { edge: EdgeId, start: i64, end: i64, status: ExitStatus, output: Seq<char> },
    Error(Seq<char>),
}

impl View for StatusEvent {
    type V = EventView;

    open spec fn view(&self) -> EventView {
        match self {
            StatusEvent::Explanations(lines) => EventView::Explanations(texts(lines@)),
            StatusEvent::EdgeStarted { edge, start_time_millis } => EventView::EdgeStarted {
                edge: *edge,
                start: *start_time_millis,
            },
            StatusEvent::EdgeFinished {
                edge,
                start_time_millis,
                end_time_millis,
                status,
                output,
            } => EventView::EdgeFinished {
                edge: *edge,
                start: *start_time_millis,
                end: *end_time_millis,
                status: *status,
                output: output@,
            },
            StatusEvent::Error(m) => EventView::Error(m@),
        }
    }
}

/// Events by what they say.
pub open spec fn event_views(v: Seq<StatusEvent>) -> Seq<EventView> {
    Seq::new(v.len(), |i: int| v[i]@)
}

/// Whether an event is about an edge of the graph, if it is about one.
pub open spec fn event_fits(e: EventView, s: StateView) -> bool {
    match e {
        EventView::EdgeStarted { edge, .. } => edge.0 < s.edges.len(),
        EventView::EdgeFinished { edge, .. } => edge.0 < s.edges.len(),
        _ => true,
    }
}

/// What the events from the `k`-th on make of a status.
pub open spec fn all_heard<S: Status>(
    m: S::Model,
    s: StateView,
    events: Seq<EventView>,
    k: int,
) -> S::Model
    decreases events.len() - k,
{
    if 0 <= k < events.len() {
        all_heard::<S>(S::heard(m, s, events[k]), s, events, k + 1)
    } else {
        m
    }
}

/// Tell a status of the events, in order.
pub fn tell<S: Status>(status: &mut S, state: &State, events: &[StatusEvent])
    requires
        state.wf(),
        forall|i: int| 0 <= i < events@.len() ==> event_fits(#[trigger] events@[i]@, state@),
    ensures
        final(status).model() == all_heard::<S>(
            old(status).model(),
            state@,
            event_views(events@),
            0,
        ),
{
    let ghost want = all_heard::<S>(status.model(), state@, event_views(events@), 0);
    let mut k: usize = 0;
    while k < events.len()
        invariant
            k <= events@.len(),
            state.wf(),
            forall|i: int| 0 <= i < events@.len() ==> event_fits(#[trigger] events@[i]@, state@),
            all_heard::<S>(status.model(), state@, event_views(events@), k as int) == want,
        decreases events@.len() - k,
    {
        assert(event_fits(events@[k as int]@, state@));
        assert(event_views(events@)[k as int] == events@[k as int]@);
        match &events[k] {
            StatusEvent::Explanations(lines) => status.explanations(lines.as_slice()),
            StatusEvent::EdgeStarted { edge, start_time_millis } => status.build_edge_started(
                state,
                *edge,
                *start_time_millis,
            ),
            StatusEvent::EdgeFinished {
                edge,
                start_time_millis,
                end_time_millis,
                status: code,
                output,
            } => status.build_edge_finished(
                state,
                *edge,
                *start_time_millis,
                *end_time_millis,
                *code,
                output.as_str(),
            ),
            StatusEvent::Error(m) => status.error(m.as_str()),
        }
        k += 1;
    }
}

/// A [`Status`] that discards everything.
#[derive(Default, Debug)]
pub struct NullStatus;

impl Status for NullStatus {
    type Model = ();

    open spec fn model(&self) -> () {
        ()
    }

    open spec fn heard(m: (), s: StateView, e: EventView) -> () {
        m
    }

    fn build_edge_started(&mut self, state: &State, edge: EdgeId, start_time_millis: i64) {
    }

    fn build_edge_finished(
        &mut self,
        state: &State,
        edge: EdgeId,
        start_time_millis: i64,
        end_time_millis: i64,
        status: ExitStatus,
        output: &str,
    ) {
    }

    fn explanations(&mut self, lines: &[String]) {
    }

    fn error(&mut self, message: &str) {
    }
}

/// A [`Status`] that records messages, for tests and for embedders that want to
/// render progress themselves.
#[derive(Default, Debug)]
pub struct RecordingStatus {
    /// Commands of started edges, in order.
    pub started: Vec<String>,
    /// Commands of finished edges, in order.
    pub finished: Vec<String>,
    /// Captured command output.
    pub output: Vec<String>,
    /// Informational messages.
    pub infos: Vec<String>,
    /// Warnings.
    pub warnings: Vec<String>,
    /// Errors.
    pub errors: Vec<String>,
}

/// What has been recorded.
#[verifier::ext_equal]
pub struct RecordingView {
    pub started: Seq<Seq<char>>,
    pub finished: Seq<Seq<char>>,
    pub output: Seq<Seq<char>>,
    pub infos: Seq<Seq<char>>,
    pub warnings: Seq<Seq<char>>,
    pub errors: Seq<Seq<char>>,
}

impl View for RecordingStatus {
    type V = RecordingView;

    open spec fn view(&self) -> RecordingView {
        RecordingView {
            started: texts(self.started@),
            finished: texts(self.finished@),
            output: texts(self.output@),
            infos: texts(self.infos@),
            warnings: texts(self.warnings@),
            errors: texts(self.errors@),
        }
    }
}

/// The command line of an edge.
pub open spec fn command_of(s: StateView, edge: EdgeId) -> Seq<char> {
    s.binding(edge.0 as int, "command"@, Escape::Shell)
}

fn push_text(v: &mut Vec<String>, text: String)
    ensures
        texts(final(v)@) == texts(old(v)@).push(text@),
{
    v.push(text);
    assert(texts(v@) =~= texts(old(v)@).push(text@));
}

impl Status for RecordingStatus {
    type Model = RecordingView;

    open spec fn model(&self) -> RecordingView {
        self@
    }

    open spec fn heard(m: RecordingView, s: StateView, e: EventView) -> RecordingView {
        match e {
            EventView::Explanations(_) => m,
            EventView::EdgeStarted { edge, .. } => RecordingView {
                started: m.started.push(command_of(s, edge)),
                ..m
            },
            EventView::EdgeFinished { edge, output, .. } => RecordingView {
                finished: m.finished.push(command_of(s, edge)),
                output: if output.len() > 0 {
                    m.output.push(output)
                } else {
                    m.output
                },
                ..m
            },
            EventView::Error(text) => RecordingView { errors: m.errors.push(text), ..m },
        }
    }

    fn build_edge_started(&mut self, state: &State, edge: EdgeId, start_time_millis: i64) {
        push_text(&mut self.started, state.edge_command(edge));
    }

    fn build_edge_finished(
        &mut self,
        state: &State,
        edge: EdgeId,
        start_time_millis: i64,
        end_time_millis: i64,
        status: ExitStatus,
        output: &str,
    ) {
        push_text(&mut self.finished, state.edge_command(edge));
        if !output.is_empty() {
            push_text(&mut self.output, output.to_owned());
        }
    }

    fn explanations(&mut self, lines: &[String]) {
    }

    fn error(&mut self, message: &str) {
        push_text(&mut self.errors, message.to_owned());
    }

    fn info(&mut self, _message: &str)
        ensures
            final(self)@ == (RecordingView {
                infos: old(self)@.infos.push(_message@),
                ..old(self)@
            }),
    {
        push_text(&mut self.infos, _message.to_owned());
    }

    fn warning(&mut self, _message: &str)
        ensures
            final(self)@ == (RecordingView {
                warnings: old(self)@.warnings.push(_message@),
                ..old(self)@
            }),
    {
        push_text(&mut self.warnings, _message.to_owned());
    }
}

/// Works out how a single status line is shown that is overwritten in place.
/// What its methods return is to be written to the terminal.
pub struct LinePrinter {
    smart_terminal: bool,
    supports_color: bool,
    have_blank_line: bool,
    console_locked: bool,
    line_buffer: String,
    line_full: bool,
    output_buffer: String,
}

/// A printer by what it knows of the terminal.
#[verifier::ext_equal]
pub struct PrinterView {
    pub smart: bool,
    pub color: bool,
    /// Whether the cursor is at the start of a line.
    pub fresh: bool,
    pub locked: bool,
    /// The status line that waits for the console.
    pub line: Seq<char>,
    pub full: bool,
    /// The output that waits for the console.
    pub waiting: Seq<char>,
}

impl View for LinePrinter {
    type V = PrinterView;

    closed spec fn view(&self) -> PrinterView {
        PrinterView {
            smart: self.smart_terminal,
            color: self.supports_color,
            fresh: self.have_blank_line,
            locked: self.console_locked,
            line: self.line_buffer@,
            full: self.line_full,
            waiting: self.output_buffer@,
        }
    }
}

/// A status line cut to the width of the terminal, if that is known.
pub open spec fn fitted(text: Seq<char>, width: Option<usize>) -> Seq<char> {
    match width {
        Some(w) => elided(text, w as int),
        None => text,
    }
}

/// What printing a status line comes to, and what is written.
pub open spec fn line_printed(p: PrinterView, text: Seq<char>, full: bool, width: Option<usize>) -> (
    PrinterView,
    Seq<char>,
) {
    if p.locked {
        (PrinterView { line: text, full, ..p }, Seq::empty())
    } else if p.smart && !full {
        (PrinterView { fresh: false, ..p }, "\r"@ + fitted(text, width) + "\x1b[K"@)
    } else if p.smart {
        (p, "\r"@ + text + "\n"@)
    } else {
        (p, text + "\n"@)
    }
}

/// What printing text on a line of its own comes to, and what is written.
pub open spec fn text_printed(p: PrinterView, text: Seq<char>) -> (PrinterView, Seq<char>) {
    let keep = p.locked && p.line.len() > 0;
    let before = if keep {
        p.waiting + p.line + "\n"@
    } else {
        p.waiting
    };
    let now = if p.fresh {
        text
    } else {
        "\n"@ + text
    };
    (
        PrinterView {
            line: if keep {
                Seq::empty()
            } else {
                p.line
            },
            waiting: if p.locked {
                before + now
            } else {
                before
            },
            fresh: text.len() == 0 || text.last() == '\n',
            ..p
        },
        if p.locked {
            Seq::empty()
        } else {
            now
        },
    )
}

/// What locking or unlocking the console comes to, and what is written.
pub open spec fn lock_set(p: PrinterView, locked: bool, width: Option<usize>) -> (
    PrinterView,
    Seq<char>,
) {
    if locked == p.locked {
        (p, Seq::empty())
    } else if locked {
        let (q, out) = text_printed(p, Seq::empty());
        (PrinterView { locked: true, ..q }, out)
    } else {
        let (q, out) = text_printed(
            PrinterView { locked: false, waiting: Seq::empty(), ..p },
            p.waiting,
        );
        if q.line.len() > 0 {
            let (r, more) = line_printed(
                PrinterView { line: Seq::empty(), ..q },
                q.line,
                q.full,
                width,
            );
            (r, out + more)
        } else {
            (q, out)
        }
    }
}

/// Whether a text ends with a line feed.
fn ends_line(text: &str) -> (r: bool)
    ensures
        r == (text@.len() > 0 && text@.last() == '\n'),
{
    let v = chars_of(text);
    v.len() > 0 && v[v.len() - 1] == '\n'
}

impl LinePrinter {
    /// A printer for a terminal that does, or does not, take control sequences
    /// and colours.
    pub fn new(smart_terminal: bool, supports_color: bool) -> (r: LinePrinter)
        ensures
            r@ == (PrinterView {
                smart: smart_terminal,
                color: supports_color,
                fresh: true,
                locked: false,
                line: Seq::empty(),
                full: false,
                waiting: Seq::empty(),
            }),
    {
        let r = LinePrinter {
            smart_terminal,
            supports_color,
            have_blank_line: true,
            console_locked: false,
            line_buffer: String::new(),
            line_full: false,
            output_buffer: String::new(),
        };
        assert(r@.line =~= Seq::empty());
        assert(r@.waiting =~= Seq::empty());
        r
    }

    /// A printer for where the output goes: whether it is a terminal, what
    /// kind (`TERM`), and whether colours are asked for in any case
    /// (`CLICOLOR_FORCE`).
    pub fn for_environment(terminal: bool, term: &str, force_color: Option<&str>) -> (r: LinePrinter)
        ensures
            ({
                let smart = terminal && term@ != "dumb"@ && term@.len() > 0;
                let color = smart || match force_color {
                    Some(v) => v@ != "0"@,
                    None => false,
                };
                r@ == (PrinterView {
                    smart,
                    color,
                    fresh: true,
                    locked: false,
                    line: Seq::empty(),
                    full: false,
                    waiting: Seq::empty(),
                })
            }),
    {
        let smart: bool = terminal && !str_eq(term, "dumb") && !term.is_empty();
        let forced: bool = match force_color {
            Some(v) => !str_eq(v, "0"),
            None => false,
        };
        LinePrinter::new(smart, smart || forced)
    }

    /// Whether the output is an interactive terminal.
    pub fn is_smart_terminal(&self) -> (r: bool)
        ensures
            r == self@.smart,
    {
        self.smart_terminal
    }

    /// Force the "smart terminal" behaviour on or off.
    pub fn set_smart_terminal(&mut self, smart: bool)
        ensures
            final(self)@ == (PrinterView { smart, ..old(self)@ }),
    {
        self.smart_terminal = smart;
    }

    /// Whether ANSI colour sequences may be emitted.
    pub fn supports_color(&self) -> (r: bool)
        ensures
            r == self@.color,
    {
        self.supports_color
    }

    /// Print `text` as the status line, eliding it to the terminal width unless
    /// `full` is set.
    pub fn print(&mut self, text: &str, full: bool, width: Option<usize>) -> (r: String)
        ensures
            (final(self)@, r@) == line_printed(old(self)@, text@, full, width),
    {
        let mut out = String::new();
        assert(out@ =~= Seq::<char>::empty());
        if self.console_locked {
            self.line_buffer = text.to_owned();
            self.line_full = full;
            return out;
        }
        if self.smart_terminal {
            out.append("\r");
        }
        if self.smart_terminal && !full {
            let mut shown: String = text.to_owned();
            if let Some(w) = width {
                elide_middle_in_place(&mut shown, w);
            }
            out.append(shown.as_str());
            out.append("\x1b[K");
            self.have_blank_line = false;
            assert(out@ =~= "\r"@ + fitted(text@, width) + "\x1b[K"@);
        } else {
            out.append(text);
            out.append("\n");
            proof {
                if self.smart_terminal {
                    assert(out@ =~= "\r"@ + text@ + "\n"@);
                } else {
                    assert(out@ =~= text@ + "\n"@);
                }
            }
        }
        out
    }

    /// Print `text` starting on a fresh line, preserving the status line.
    pub fn print_on_new_line(&mut self, text: &str) -> (r: String)
        ensures
            (final(self)@, r@) == text_printed(old(self)@, text@),
    {
        let ghost p = self@;
        let locked: bool = self.console_locked;
        if locked && !self.line_buffer.as_str().is_empty() {
            let mut line = String::new();
            assert(line@ =~= Seq::<char>::empty());
            std::mem::swap(&mut line, &mut self.line_buffer);
            self.output_buffer.append(line.as_str());
            self.output_buffer.append("\n");
        }
        let ghost before = self.output_buffer@;
        let mut now = String::new();
        if !self.have_blank_line {
            now.append("\n");
        }
        now.append(text);
        proof {
            if p.fresh {
                assert(now@ =~= text@);
            } else {
                assert(now@ =~= "\n"@ + text@);
            }
        }
        self.have_blank_line = text.is_empty() || ends_line(text);
        if locked {
            self.output_buffer.append(now.as_str());
            let none = String::new();
            assert(none@ =~= Seq::<char>::empty());
            none
        } else {
            now
        }
    }

    /// While the console is locked (a `console` pool edge is running), keep our
    /// own output back so it does not interleave with the child's.
    pub fn set_console_locked(&mut self, locked: bool, width: Option<usize>) -> (r: String)
        ensures
            (final(self)@, r@) == lock_set(old(self)@, locked, width),
    {
        if locked == self.console_locked {
            let none = String::new();
            assert(none@ =~= Seq::<char>::empty());
            return none;
        }
        if locked {
            let out = self.print_on_new_line("");
            proof {
                reveal_strlit("");
                assert(""@ =~= Seq::<char>::empty());
            }
            self.console_locked = true;
            return out;
        }
        self.console_locked = false;
        let mut waiting = String::new();
        assert(waiting@ =~= Seq::<char>::empty());
        std::mem::swap(&mut waiting, &mut self.output_buffer);
        let mut out = self.print_on_new_line(waiting.as_str());
        if !self.line_buffer.as_str().is_empty() {
            let mut line = String::new();
            assert(line@ =~= Seq::<char>::empty());
            std::mem::swap(&mut line, &mut self.line_buffer);
            let full: bool = self.line_full;
            let more = self.print(line.as_str(), full, width);
            out.append(more.as_str());
        }
        out
    }
}

/// The numbers that a progress display is made of. Times are in milliseconds.
#[derive(Copy, Clone, PartialEq, Eq, Structural, Debug)]
pub struct ProgressCounts {
    pub started: i64,
    pub finished: i64,
    pub total: i64,
    pub running: i64,
    /// When the last command started or finished.
    pub time: i64,
    /// How long all finished commands took together.
    pub cpu_time: i64,
    /// Commands that ran before, so that it is known how long they take.
    pub predictable: i64,
    pub predictable_left: i64,
    pub predictable_time: i64,
    pub predictable_time_left: i64,
    pub unpredictable_left: i64,
}

/// The numbers before anything is planned.
pub open spec fn no_counts() -> ProgressCounts {
    ProgressCounts {
        started: 0,
        finished: 0,
        total: 0,
        running: 0,
        time: 0,
        cpu_time: 0,
        predictable: 0,
        predictable_left: 0,
        predictable_time: 0,
        predictable_time_left: 0,
        unpredictable_left: 0,
    }
}

impl ProgressCounts {
    /// The numbers with one more command, which took `before` last time (-1 if
    /// that is not known).
    pub open spec fn planned(self, before: i64) -> ProgressCounts {
        if before != -1 {
            ProgressCounts {
                total: self.total.wrapping_add(1),
                predictable: self.predictable.wrapping_add(1),
                predictable_left: self.predictable_left.wrapping_add(1),
                predictable_time: self.predictable_time.wrapping_add(before),
                predictable_time_left: self.predictable_time_left.wrapping_add(before),
                ..self
            }
        } else {
            ProgressCounts {
                total: self.total.wrapping_add(1),
                unpredictable_left: self.unpredictable_left.wrapping_add(1),
                ..self
            }
        }
    }

    /// The numbers with one command less.
    pub open spec fn dropped(self, before: i64) -> ProgressCounts {
        if before != -1 {
            ProgressCounts {
                total: self.total.wrapping_sub(1),
                predictable: self.predictable.wrapping_sub(1),
                predictable_left: self.predictable_left.wrapping_sub(1),
                predictable_time: self.predictable_time.wrapping_sub(before),
                predictable_time_left: self.predictable_time_left.wrapping_sub(before),
                ..self
            }
        } else {
            ProgressCounts {
                total: self.total.wrapping_sub(1),
                unpredictable_left: self.unpredictable_left.wrapping_sub(1),
                ..self
            }
        }
    }

    /// The numbers when a build starts.
    pub open spec fn restarted(self) -> ProgressCounts {
        ProgressCounts { started: 0, finished: 0, running: 0, ..self }
    }

    /// The numbers after a command has started.
    pub open spec fn began(self, start: i64) -> ProgressCounts {
        ProgressCounts {
            started: self.started.wrapping_add(1),
            running: self.running.wrapping_add(1),
            time: start,
            ..self
        }
    }

    /// The numbers after a command has finished, while it still counts as
    /// running.
    pub open spec fn ended(self, start: i64, end: i64, before: i64) -> ProgressCounts {
        ProgressCounts {
            time: end,
            finished: self.finished.wrapping_add(1),
            cpu_time: self.cpu_time.wrapping_add(end.wrapping_sub(start)),
            predictable_left: if before != -1 {
                self.predictable_left.wrapping_sub(1)
            } else {
                self.predictable_left
            },
            predictable_time_left: if before != -1 {
                self.predictable_time_left.wrapping_sub(before)
            } else {
                self.predictable_time_left
            },
            unpredictable_left: if before != -1 {
                self.unpredictable_left
            } else {
                self.unpredictable_left.wrapping_sub(1)
            },
            ..self
        }
    }
}

/// The parts of a progress display that are estimates, as text.
#[derive(Debug)]
pub struct ProgressTexts {
    /// Commands per second, over all (`%o`).
    pub overall_rate: String,
    /// Commands per second, lately (`%c`).
    pub current_rate: String,
    /// The time so far, in seconds (`%e`).
    pub elapsed: String,
    /// The time so far, as a clock shows it (`%w`).
    pub elapsed_clock: String,
    /// The time left, in seconds (`%E`).
    pub eta: String,
    /// The time left, as a clock shows it (`%W`).
    pub eta_clock: String,
    /// How much of the time has gone (`%P`).
    pub predicted: String,
}

/// The estimates of a progress display.
pub struct ProgressTextsView {
    pub overall_rate: Seq<char>,
    pub current_rate: Seq<char>,
    pub elapsed: Seq<char>,
    pub elapsed_clock: Seq<char>,
    pub eta: Seq<char>,
    pub eta_clock: Seq<char>,
    pub predicted: Seq<char>,
}

impl View for ProgressTexts {
    type V = ProgressTextsView;

    open spec fn view(&self) -> ProgressTextsView {
        ProgressTextsView {
            overall_rate: self.overall_rate@,
            current_rate: self.current_rate@,
            elapsed: self.elapsed@,
            elapsed_clock: self.elapsed_clock@,
            eta: self.eta@,
            eta_clock: self.eta_clock@,
            predicted: self.predicted@,
        }
    }
}

/// `s` with spaces in front of it, up to `n` characters.
pub open spec fn padded(s: Seq<char>, n: int) -> Seq<char> {
    if s.len() < n {
        repeated(' ', n - s.len()) + s
    } else {
        s
    }
}

/// How much of the commands has finished, in percent.
pub open spec fn percent(c: ProgressCounts) -> int {
    if c.finished != 0 && c.total != 0 {
        let n = (100 * size(c.finished as int)) / size(c.total as int);
        if (c.finished < 0) == (c.total < 0) {
            n
        } else {
            -n
        }
    } else {
        0
    }
}

/// A number without its sign.
pub open spec fn size(n: int) -> int {
    if n < 0 {
        -n
    } else {
        n
    }
}

fn size_of(n: i64) -> (r: u128)
    ensures
        r == size(n as int),
        r <= 0x8000_0000_0000_0000,
{
    if n < 0 {
        (-(n as i128)) as u128
    } else {
        n as u128
    }
}

/// What a letter behind a percent sign stands for.
pub open spec fn placeholder(c: ProgressCounts, t: ProgressTextsView, spec_char: char) -> Seq<char> {
    if spec_char == '%' {
        "%"@
    } else if spec_char == 's' {
        signed_decimal(c.started as int)
    } else if spec_char == 't' {
        signed_decimal(c.total as int)
    } else if spec_char == 'r' {
        signed_decimal(c.running as int)
    } else if spec_char == 'u' {
        signed_decimal(c.total.wrapping_sub(c.started) as int)
    } else if spec_char == 'f' {
        signed_decimal(c.finished as int)
    } else if spec_char == 'p' {
        padded(signed_decimal(percent(c)), 3) + "%"@
    } else if spec_char == 'o' {
        t.overall_rate
    } else if spec_char == 'c' {
        t.current_rate
    } else if spec_char == 'e' {
        t.elapsed
    } else if spec_char == 'w' {
        t.elapsed_clock
    } else if spec_char == 'E' {
        t.eta
    } else if spec_char == 'W' {
        t.eta_clock
    } else if spec_char == 'P' {
        t.predicted
    } else {
        seq!['%', spec_char]
    }
}

/// A progress prefix, from position `i` of its format on. A percent sign at the
/// end is dropped.
pub open spec fn progress_text(c: ProgressCounts, t: ProgressTextsView, f: Seq<char>, i: int) -> Seq<char>
    decreases f.len() - i,
{
    if 0 <= i < f.len() {
        if f[i] != '%' {
            seq![f[i]] + progress_text(c, t, f, i + 1)
        } else if i + 1 < f.len() {
            placeholder(c, t, f[i + 1]) + progress_text(c, t, f, i + 2)
        } else {
            Seq::empty()
        }
    } else {
        Seq::empty()
    }
}

/// A number with at least two digits.
pub open spec fn two_digits(n: nat) -> Seq<char> {
    if n < 10 {
        seq!['0'] + decimal(n)
    } else {
        decimal(n)
    }
}

/// A number of seconds as a clock shows it, with hours where they are wanted.
pub open spec fn clock_text(t: nat, hours: bool) -> Seq<char> {
    if hours {
        decimal(t / 3600) + ":"@ + two_digits(t % 3600 / 60) + ":"@ + two_digits(t % 60)
    } else {
        two_digits(t / 60) + ":"@ + two_digits(t % 60)
    }
}

fn push_two_digits(out: &mut String, n: u64)
    ensures
        final(out)@ == old(out)@ + two_digits(n as nat),
{
    if n < 10 {
        out.append("0");
        proof {
            reveal_strlit("0");
            assert("0"@ =~= seq!['0']);
        }
    }
    push_decimal(out, n as u128);
    assert(out@ =~= old(out)@ + two_digits(n as nat));
}

/// A number of seconds as a clock shows it.
pub fn clock(t: u64, hours: bool) -> (r: String)
    ensures
        r@ == clock_text(t as nat, hours),
{
    let mut out = String::new();
    assert(out@ =~= Seq::<char>::empty());
    if hours {
        push_decimal(&mut out, (t / 3600) as u128);
        out.append(":");
        push_two_digits(&mut out, t % 3600 / 60);
    } else {
        push_two_digits(&mut out, t / 60);
    }
    out.append(":");
    push_two_digits(&mut out, t % 60);
    assert(out@ =~= clock_text(t as nat, hours));
    out
}

/// `n` percent, as wide as three digits at least.
pub fn percentage(n: u64) -> (r: String)
    ensures
        r@ == padded(decimal(n as nat), 3) + "%"@,
{
    let mut digits = String::new();
    push_decimal(&mut digits, n as u128);
    assert(digits@ =~= decimal(n as nat));
    let mut out = String::new();
    let len: usize = digits.as_str().unicode_len();
    if len < 3 {
        push_repeated_char(&mut out, ' ', 3 - len);
    }
    out.append(digits.as_str());
    assert(out@ =~= padded(decimal(n as nat), 3));
    out.append("%");
    out
}

/// The terminal progress display.
pub struct ConsoleStatus {
    /// Where the display is shown.
    pub printer: LinePrinter,
    pub verbosity: Verbosity,
    /// The format of the progress prefix.
    pub progress_status_format: String,
    pub counts: ProgressCounts,
    /// Explanations for the edge that is reported next.
    pub pending_explanations: Vec<String>,
}

/// A progress display by what it holds.
#[verifier::ext_equal]
pub struct ConsoleView {
    pub printer: PrinterView,
    pub verbosity: Verbosity,
    pub format: Seq<char>,
    pub counts: ProgressCounts,
    pub explanations: Seq<Seq<char>>,
}

impl View for ConsoleStatus {
    type V = ConsoleView;

    open spec fn view(&self) -> ConsoleView {
        ConsoleView {
            printer: self.printer@,
            verbosity: self.verbosity,
            format: self.progress_status_format@,
            counts: self.counts,
            explanations: texts(self.pending_explanations@),
        }
    }
}

/// What is to be written to the terminal.
#[derive(Debug)]
pub struct Shown {
    /// To standard output, before anything else.
    pub before: String,
    /// To standard error.
    pub err: String,
    /// To standard output, after that.
    pub out: String,
}

/// What is to be written to the terminal, as text.
#[verifier::ext_equal]
pub struct ShownView {
    pub before: Seq<char>,
    pub err: Seq<char>,
    pub out: Seq<char>,
}

impl View for Shown {
    type V = ShownView;

    open spec fn view(&self) -> ShownView {
        ShownView { before: self.before@, err: self.err@, out: self.out@ }
    }
}

/// Nothing to be written.
pub open spec fn nothing_shown() -> ShownView {
    ShownView { before: Seq::empty(), err: Seq::empty(), out: Seq::empty() }
}

impl ShownView {
    /// With more to be written to standard output at the end.
    pub open spec fn and(self, more: Seq<char>) -> ShownView {
        ShownView { out: self.out + more, ..self }
    }
}

/// The lines for explanations.
pub open spec fn explain_lines(v: Seq<Seq<char>>) -> Seq<char>
    decreases v.len(),
{
    if v.len() == 0 {
        Seq::empty()
    } else {
        explain_lines(v.drop_last()) + "shuriken explain: "@ + v.last() + "\n"@
    }
}

/// The text of a status line.
pub open spec fn status_line(c: ConsoleView, t: ProgressTextsView, s: StateView, edge: EdgeId) -> Seq<char> {
    let d = s.binding(edge.0 as int, "description"@, Escape::Shell);
    progress_text(c.counts, t, c.format, 0) + if d.len() == 0 || c.verbosity == Verbosity::Verbose {
        command_of(s, edge)
    } else {
        d
    }
}

/// What showing the status of an edge comes to, and what is written.
pub open spec fn status_shown(
    c: ConsoleView,
    t: ProgressTextsView,
    s: StateView,
    edge: EdgeId,
    width: Option<usize>,
) -> (ConsoleView, ShownView) {
    let (p, before) = if c.explanations.len() > 0 {
        text_printed(c.printer, Seq::empty())
    } else {
        (c.printer, Seq::empty())
    };
    let err = explain_lines(c.explanations);
    let d = ConsoleView { printer: p, explanations: Seq::empty(), ..c };
    if c.verbosity == Verbosity::Quiet || c.verbosity == Verbosity::NoStatusUpdate {
        (d, ShownView { before, err, out: Seq::empty() })
    } else {
        let (q, line) = line_printed(
            p,
            status_line(d, t, s, edge),
            c.verbosity == Verbosity::Verbose,
            width,
        );
        (ConsoleView { printer: q, ..d }, ShownView { before, err, out: line })
    }
}

/// The paths of the first `k` outputs, each with a space behind it.
pub open spec fn spaced_paths(s: StateView, nodes: Seq<NodeId>) -> Seq<char>
    decreases nodes.len(),
{
    if nodes.len() == 0 {
        Seq::empty()
    } else {
        spaced_paths(s, nodes.drop_last()) + s.nodes[nodes.last().0 as int].path + " "@
    }
}

/// The line that tells which command failed, and with what code.
pub open spec fn failure_text(s: StateView, edge: EdgeId, status: ExitStatus, color: bool) -> Seq<char> {
    let failed = "FAILED: [code="@ + signed_decimal(status.0 as int) + "] "@;
    let outputs = spaced_paths(s, s.edges[edge.0 as int].outputs);
    if color {
        "\x1b[31m"@ + failed + "\x1b[0m"@ + outputs + "\n"@
    } else {
        failed + outputs + "\n"@
    }
}

/// Several texts printed, each on a line of its own.
pub open spec fn texts_printed(p: PrinterView, v: Seq<Seq<char>>) -> (PrinterView, Seq<char>)
    decreases v.len(),
{
    if v.len() == 0 {
        (p, Seq::empty())
    } else {
        let (q, out) = texts_printed(p, v.drop_last());
        let (r, more) = text_printed(q, v.last());
        (r, out + more)
    }
}

/// The output of a command as it is shown: without colours, unless the terminal
/// takes them.
pub open spec fn shown_output(output: Seq<char>, color: bool) -> Seq<char> {
    if color || !output.contains('\x1b') {
        output
    } else {
        without_ansi(output, 0)
    }
}

/// What is printed for a command that has ended.
pub open spec fn end_texts(
    s: StateView,
    edge: EdgeId,
    status: ExitStatus,
    output: Seq<char>,
    color: bool,
) -> Seq<Seq<char>> {
    let failure = if status.success() {
        Seq::empty()
    } else {
        seq![failure_text(s, edge, status, color), command_of(s, edge) + "\n"@]
    };
    if output.len() > 0 {
        failure.push(shown_output(output, color))
    } else {
        failure
    }
}

fn show_nothing() -> (r: Shown)
    ensures
        r@ == nothing_shown(),
{
    let r = Shown { before: String::new(), err: String::new(), out: String::new() };
    assert(r@ =~= nothing_shown());
    r
}

fn has_escape(s: &str) -> (r: bool)
    ensures
        r == s@.contains('\x1b'),
{
    let v = chars_of(s);
    let mut i: usize = 0;
    while i < v.len()
        invariant
            i <= v@.len(),
            v@ == s@,
            forall|k: int| 0 <= k < i ==> v@[k] != '\x1b',
        decreases v@.len() - i,
    {
        if v[i] == '\x1b' {
            assert(s@[i as int] == '\x1b');
            return true;
        }
        i += 1;
    }
    false
}

fn failure_line(state: &State, edge: EdgeId, status: ExitStatus, color: bool) -> (r: String)
    requires
        state.wf(),
        edge.0 < state@.edges.len(),
    ensures
        r@ == failure_text(state@, edge, status, color),
{
    let mut out = String::new();
    assert(out@ =~= Seq::<char>::empty());
    if color {
        out.append("\x1b[31m");
    }
    out.append("FAILED: [code=");
    push_signed(&mut out, status.0 as i64);
    out.append("] ");
    if color {
        out.append("\x1b[0m");
    }
    let ghost head = out@;
    let outs = state.edge(edge).outputs();
    let mut i: usize = 0;
    proof {
        state.lemma_wf();
        assert(state@.edge_ok(state@.edges[edge.0 as int]));
        assert(outs@.take(0) =~= Seq::empty());
        assert(out@ =~= head + spaced_paths(state@, outs@.take(0)));
    }
    while i < outs.len()
        invariant
            i <= outs@.len(),
            crate::state::nodes_below(outs@, state@.nodes.len()),
            out@ == head + spaced_paths(state@, outs@.take(i as int)),
        decreases outs@.len() - i,
    {
        out.append(state.node(outs[i]).path());
        out.append(" ");
        i += 1;
        proof {
            let v = outs@.take(i as int);
            assert(v.drop_last() =~= outs@.take(i - 1));
            assert(out@ =~= head + spaced_paths(state@, v));
        }
    }
    assert(outs@.take(i as int) =~= outs@);
    out.append("\n");
    assert(out@ =~= failure_text(state@, edge, status, color));
    out
}

impl ConsoleStatus {
    /// A status display for the given verbosity.
    pub fn new(verbosity: Verbosity, printer: LinePrinter, format: String) -> (r: ConsoleStatus)
        ensures
            r@ == (ConsoleView {
                printer: PrinterView {
                    smart: printer@.smart && verbosity == Verbosity::Normal,
                    ..printer@
                },
                verbosity,
                format: format@,
                counts: no_counts(),
                explanations: Seq::empty(),
            }),
    {
        let mut printer = printer;
        // Anything but the default verbosity prints plain lines.
        if verbosity != Verbosity::Normal {
            printer.set_smart_terminal(false);
        }
        let r = ConsoleStatus {
            printer,
            verbosity,
            progress_status_format: format,
            counts: ProgressCounts {
                started: 0,
                finished: 0,
                total: 0,
                running: 0,
                time: 0,
                cpu_time: 0,
                predictable: 0,
                predictable_left: 0,
                predictable_time: 0,
                predictable_time_left: 0,
                unpredictable_left: 0,
            },
            pending_explanations: Vec::new(),
        };
        assert(r@.explanations =~= Seq::empty());
        r
    }

    /// Total number of edges with commands in the plan.
    pub fn total_edges(&self) -> (r: i64)
        ensures
            r == self@.counts.total,
    {
        self.counts.total
    }

    fn push_placeholder(&self, out: &mut String, spec_char: char, t: &ProgressTexts)
        ensures
            final(out)@ == old(out)@ + placeholder(self@.counts, t@, spec_char),
    {
        let c = self.counts;
        match spec_char {
            '%' => out.append("%"),
            's' => push_signed(out, c.started),
            't' => push_signed(out, c.total),
            'r' => push_signed(out, c.running),
            'u' => push_signed(out, c.total.wrapping_sub(c.started)),
            'f' => push_signed(out, c.finished),
            'p' => {
                let n: u128 = if c.finished != 0 && c.total != 0 {
                    (100 * size_of(c.finished)) / size_of(c.total)
                } else {
                    0
                };
                let mut digits = String::new();
                if n > 0 && (c.finished < 0) != (c.total < 0) {
                    digits.push('-');
                }
                push_decimal(&mut digits, n);
                assert(digits@ =~= signed_decimal(percent(c)));
                let len: usize = digits.as_str().unicode_len();
                if len < 3 {
                    push_repeated_char(out, ' ', 3 - len);
                }
                out.append(digits.as_str());
                out.append("%");
                assert(out@ =~= old(out)@ + placeholder(self@.counts, t@, spec_char));
            },
            'o' => out.append(t.overall_rate.as_str()),
            'c' => out.append(t.current_rate.as_str()),
            'e' => out.append(t.elapsed.as_str()),
            'w' => out.append(t.elapsed_clock.as_str()),
            'E' => out.append(t.eta.as_str()),
            'W' => out.append(t.eta_clock.as_str()),
            'P' => out.append(t.predicted.as_str()),
            _ => {
                out.push('%');
                out.push(spec_char);
                assert(out@ =~= old(out)@ + seq!['%', spec_char]);
            },
        }
    }

    /// Format a progress prefix from a status format string.
    pub fn format_progress_status(&self, format: &str, t: &ProgressTexts) -> (r: String)
        ensures
            r@ == progress_text(self@.counts, t@, format@, 0),
    {
        let f = chars_of(format);
        let ghost c = self@.counts;
        let mut out = String::new();
        let mut i: usize = 0;
        let n: usize = f.len();
        assert(out@ + progress_text(c, t@, format@, 0) =~= progress_text(c, t@, format@, 0));
        while i < n
            invariant
                i <= n == f@.len(),
                f@ == format@,
                c == self@.counts,
                out@ + progress_text(c, t@, format@, i as int) == progress_text(c, t@, format@, 0),
            decreases n - i,
        {
            let ghost before = out@;
            if f[i] != '%' {
                out.push(f[i]);
                i += 1;
                proof {
                    let rest = progress_text(c, t@, format@, i as int);
                    assert(before + (seq![f@[i - 1]] + rest) =~= out@ + rest);
                }
            } else if n - i > 1 {
                self.push_placeholder(&mut out, f[i + 1], t);
                i += 2;
                proof {
                    let rest = progress_text(c, t@, format@, i as int);
                    let x = placeholder(c, t@, f@[i - 1]);
                    assert(before + (x + rest) =~= out@ + rest);
                }
            } else {
                assert(out@ + Seq::<char>::empty() =~= out@);
                return out;
            }
        }
        assert(out@ + Seq::<char>::empty() =~= out@);
        out
    }

    /// An edge was added to the build plan.
    pub fn edge_added_to_plan(&mut self, state: &State, edge: EdgeId)
        requires
            edge.0 < state@.edges.len(),
        ensures
            final(self)@ == (ConsoleView {
                counts: old(self)@.counts.planned(
                    state@.edges[edge.0 as int].prev_elapsed_time_millis,
                ),
                ..old(self)@
            }),
    {
        let before: i64 = state.edge(edge).prev_elapsed_time_millis();
        self.counts.total = self.counts.total.wrapping_add(1);
        if before != -1 {
            self.counts.predictable = self.counts.predictable.wrapping_add(1);
            self.counts.predictable_left = self.counts.predictable_left.wrapping_add(1);
            self.counts.predictable_time = self.counts.predictable_time.wrapping_add(before);
            self.counts.predictable_time_left = self.counts.predictable_time_left.wrapping_add(
                before,
            );
        } else {
            self.counts.unpredictable_left = self.counts.unpredictable_left.wrapping_add(1);
        }
    }

    /// An edge was removed from the plan.
    pub fn edge_removed_from_plan(&mut self, state: &State, edge: EdgeId)
        requires
            edge.0 < state@.edges.len(),
        ensures
            final(self)@ == (ConsoleView {
                counts: old(self)@.counts.dropped(
                    state@.edges[edge.0 as int].prev_elapsed_time_millis,
                ),
                ..old(self)@
            }),
    {
        let before: i64 = state.edge(edge).prev_elapsed_time_millis();
        self.counts.total = self.counts.total.wrapping_sub(1);
        if before != -1 {
            self.counts.predictable = self.counts.predictable.wrapping_sub(1);
            self.counts.predictable_left = self.counts.predictable_left.wrapping_sub(1);
            self.counts.predictable_time = self.counts.predictable_time.wrapping_sub(before);
            self.counts.predictable_time_left = self.counts.predictable_time_left.wrapping_sub(
                before,
            );
        } else {
            self.counts.unpredictable_left = self.counts.unpredictable_left.wrapping_sub(1);
        }
    }

    /// The build is about to start running commands.
    pub fn build_started(&mut self)
        ensures
            final(self)@ == (ConsoleView { counts: old(self)@.counts.restarted(), ..old(self)@ }),
    {
        self.counts.started = 0;
        self.counts.finished = 0;
        self.counts.running = 0;
    }

    /// The build has finished. Returns what is to be written.
    pub fn build_finished(&mut self, width: Option<usize>) -> (r: String)
        ensures
            ({
                let (p, out) = lock_set(old(self)@.printer, false, width);
                let (q, more) = text_printed(p, Seq::empty());
                &&& final(self)@ == (ConsoleView { printer: q, ..old(self)@ })
                &&& r@ == out + more
            }),
    {
        let mut out = self.printer.set_console_locked(false, width);
        proof {
            reveal_strlit("");
            assert(""@ =~= Seq::<char>::empty());
        }
        let more = self.printer.print_on_new_line("");
        out.append(more.as_str());
        out
    }

    /// A message to the user. Returns what is to be written before it.
    pub fn message_follows(&mut self) -> (r: String)
        ensures
            ({
                let (q, out) = text_printed(old(self)@.printer, Seq::empty());
                &&& final(self)@ == (ConsoleView { printer: q, ..old(self)@ })
                &&& r@ == out
            }),
    {
        proof {
            reveal_strlit("");
            assert(""@ =~= Seq::<char>::empty());
        }
        self.printer.print_on_new_line("")
    }

    /// The explanations for the edge that is reported next, in place of those
    /// that were given before.
    pub fn explanations(&mut self, lines: Vec<String>)
        ensures
            final(self)@ == (ConsoleView { explanations: texts(lines@), ..old(self)@ }),
    {
        self.pending_explanations = lines;
    }

    fn print_status(
        &mut self,
        state: &State,
        edge: EdgeId,
        t: &ProgressTexts,
        width: Option<usize>,
    ) -> (r: Shown)
        requires
            state.wf(),
            edge.0 < state@.edges.len(),
        ensures
            (final(self)@, r@) == status_shown(old(self)@, t@, state@, edge, width),
    {
        let ghost c0 = self@;
        let mut before = String::new();
        let mut err = String::new();
        let mut out = String::new();
        assert(before@ =~= Seq::<char>::empty());
        assert(out@ =~= Seq::<char>::empty());
        if self.pending_explanations.len() > 0 {
            proof {
                reveal_strlit("");
                assert(""@ =~= Seq::<char>::empty());
            }
            before = self.printer.print_on_new_line("");
            let mut i: usize = 0;
            assert(texts(self.pending_explanations@).take(0) =~= Seq::empty());
            assert(err@ =~= explain_lines(c0.explanations.take(0)));
            while i < self.pending_explanations.len()
                invariant
                    i <= self.pending_explanations@.len(),
                    texts(self.pending_explanations@) == c0.explanations,
                    err@ == explain_lines(c0.explanations.take(i as int)),
                decreases self.pending_explanations@.len() - i,
            {
                err.append("shuriken explain: ");
                err.append(self.pending_explanations[i].as_str());
                err.append("\n");
                i += 1;
                proof {
                    let v = c0.explanations.take(i as int);
                    assert(v.drop_last() =~= c0.explanations.take(i - 1));
                    assert(v.last() == self.pending_explanations@[i - 1]@);
                    assert(err@ =~= explain_lines(v));
                }
            }
            assert(c0.explanations.take(i as int) =~= c0.explanations);
            self.pending_explanations = Vec::new();
        } else {
            assert(err@ =~= explain_lines(c0.explanations));
        }
        proof {
            assert(texts(self.pending_explanations@) =~= Seq::empty());
        }
        if self.verbosity == Verbosity::Quiet || self.verbosity == Verbosity::NoStatusUpdate {
            return Shown { before, err, out };
        }
        let full: bool = self.verbosity == Verbosity::Verbose;
        let mut what: String = state.edge_binding(edge, "description");
        if what.as_str().is_empty() || full {
            what = state.edge_command(edge);
        }
        let mut line: String = self.format_progress_status(
            self.progress_status_format.as_str(),
            t,
        );
        line.append(what.as_str());
        out = self.printer.print(line.as_str(), full, width);
        Shown { before, err, out }
    }

    /// The counts once a command has started.
    pub fn counts_at_start(&self, start_time_millis: i64) -> (r: ProgressCounts)
        ensures
            r == self@.counts.began(start_time_millis),
    {
        ProgressCounts {
            started: self.counts.started.wrapping_add(1),
            running: self.counts.running.wrapping_add(1),
            time: start_time_millis,
            ..self.counts
        }
    }

    /// The counts once the command of `edge` has finished.
    pub fn counts_at_end(
        &self,
        state: &State,
        edge: EdgeId,
        start_time_millis: i64,
        end_time_millis: i64,
    ) -> (r: ProgressCounts)
        requires
            edge.0 < state@.edges.len(),
        ensures
            r == self@.counts.ended(
                start_time_millis,
                end_time_millis,
                state@.edges[edge.0 as int].prev_elapsed_time_millis,
            ),
    {
        let before: i64 = state.edge(edge).prev_elapsed_time_millis();
        let mut c = self.counts;
        c.time = end_time_millis;
        c.finished = c.finished.wrapping_add(1);
        c.cpu_time = c.cpu_time.wrapping_add(end_time_millis.wrapping_sub(start_time_millis));
        if before != -1 {
            c.predictable_left = c.predictable_left.wrapping_sub(1);
            c.predictable_time_left = c.predictable_time_left.wrapping_sub(before);
        } else {
            c.unpredictable_left = c.unpredictable_left.wrapping_sub(1);
        }
        c
    }

    /// An edge's command has started. Returns what is to be written.
    pub fn build_edge_started(
        &mut self,
        state: &State,
        edge: EdgeId,
        start_time_millis: i64,
        t: &ProgressTexts,
        width: Option<usize>,
    ) -> (r: Shown)
        requires
            state.wf(),
            edge.0 < state@.edges.len(),
        ensures
            ({
                let console = state@.edges[edge.0 as int].pool == crate::state::console_pool();
                let c = ConsoleView {
                    counts: old(self)@.counts.began(start_time_millis),
                    ..old(self)@
                };
                let (d, shown) = if console || c.printer.smart {
                    status_shown(c, t@, state@, edge, width)
                } else {
                    (c, nothing_shown())
                };
                let (p, more) = if console {
                    lock_set(d.printer, true, width)
                } else {
                    (d.printer, Seq::empty())
                };
                &&& final(self)@ == (ConsoleView { printer: p, ..d })
                &&& r@ == shown.and(more)
            }),
    {
        self.counts = self.counts_at_start(start_time_millis);
        let console: bool = state.edge_use_console(edge);
        let mut shown = if console || self.printer.is_smart_terminal() {
            self.print_status(state, edge, t, width)
        } else {
            show_nothing()
        };
        if console {
            let more = self.printer.set_console_locked(true, width);
            shown.out.append(more.as_str());
        } else {
            assert(shown.out@ + Seq::<char>::empty() =~= shown.out@);
        }
        shown
    }
}

impl ConsoleStatus {
    fn print_end(&mut self, state: &State, edge: EdgeId, status: ExitStatus, output: &str) -> (r: String)
        requires
            state.wf(),
            edge.0 < state@.edges.len(),
        ensures
            ({
                let (p, out) = texts_printed(
                    old(self)@.printer,
                    end_texts(state@, edge, status, output@, old(self)@.printer.color),
                );
                &&& final(self)@ == (ConsoleView { printer: p, ..old(self)@ })
                &&& r@ == out
            }),
    {
        let ghost p0 = self.printer@;
        let color: bool = self.printer.supports_color();
        let ghost all = end_texts(state@, edge, status, output@, color);
        let mut out = String::new();
        proof {
            assert(out@ =~= Seq::<char>::empty());
            assert((self.printer@, out@) == texts_printed(p0, Seq::empty()));
        }
        let ghost mut done = Seq::<Seq<char>>::empty();
        // Show which command failed, and with what code, before its output.
        if !status.success() {
            let banner = failure_line(state, edge, status, color);
            let more = self.printer.print_on_new_line(banner.as_str());
            out.append(more.as_str());
            proof {
                let d = done.push(banner@);
                assert(d.drop_last() =~= done);
                done = d;
                assert((self.printer@, out@) == texts_printed(p0, done));
            }
            let mut command: String = state.edge_command(edge);
            command.append("\n");
            let more2 = self.printer.print_on_new_line(command.as_str());
            out.append(more2.as_str());
            proof {
                let d = done.push(command@);
                assert(d.drop_last() =~= done);
                done = d;
                assert((self.printer@, out@) == texts_printed(p0, done));
                assert(done =~= seq![
                    failure_text(state@, edge, status, color),
                    command_of(state@, edge) + "\n"@,
                ]);
            }
        }
        if !output.is_empty() {
            // Subprocesses see a pipe, so tools that colour their output when
            // told to may emit escape codes; strip them if we are not writing
            // to a terminal.
            let shown: String = if color || !has_escape(output) {
                output.to_owned()
            } else {
                strip_ansi_escape_codes(output)
            };
            let more = self.printer.print_on_new_line(shown.as_str());
            out.append(more.as_str());
            proof {
                let d = done.push(shown@);
                assert(d.drop_last() =~= done);
                done = d;
                assert((self.printer@, out@) == texts_printed(p0, done));
            }
        }
        assert(done =~= all);
        out
    }

    /// An edge's command has finished. Returns what is to be written.
    pub fn build_edge_finished(
        &mut self,
        state: &State,
        edge: EdgeId,
        start_time_millis: i64,
        end_time_millis: i64,
        status: ExitStatus,
        output: &str,
        t: &ProgressTexts,
        width: Option<usize>,
    ) -> (r: Shown)
        requires
            state.wf(),
            edge.0 < state@.edges.len(),
        ensures
            (final(self)@, r@) == end_shown(
                old(self)@,
                t@,
                state@,
                edge,
                start_time_millis,
                end_time_millis,
                status,
                output@,
                width,
            ),
    {
        self.counts = self.counts_at_end(state, edge, start_time_millis, end_time_millis);
        let console: bool = state.edge_use_console(edge);
        let mut first = String::new();
        assert(first@ =~= Seq::<char>::empty());
        if console {
            first = self.printer.set_console_locked(false, width);
        }
        if self.verbosity == Verbosity::Quiet {
            let mut shown = show_nothing();
            shown.before = first;
            return shown;
        }
        let mut shown = if console {
            show_nothing()
        } else {
            self.print_status(state, edge, t, width)
        };
        first.append(shown.before.as_str());
        shown.before = first;
        self.counts.running = self.counts.running.wrapping_sub(1);
        let more = self.print_end(state, edge, status, output);
        shown.out.append(more.as_str());
        shown
    }
}

/// What the end of an edge's command comes to, and what is written.
pub open spec fn end_shown(
    c: ConsoleView,
    t: ProgressTextsView,
    s: StateView,
    edge: EdgeId,
    start: i64,
    end: i64,
    status: ExitStatus,
    output: Seq<char>,
    width: Option<usize>,
) -> (ConsoleView, ShownView) {
    let e = s.edges[edge.0 as int];
    let console = e.pool == crate::state::console_pool();
    let (p, first) = if console {
        lock_set(c.printer, false, width)
    } else {
        (c.printer, Seq::empty())
    };
    let d = ConsoleView {
        printer: p,
        counts: c.counts.ended(start, end, e.prev_elapsed_time_millis),
        ..c
    };
    if c.verbosity == Verbosity::Quiet {
        (d, ShownView { before: first, ..nothing_shown() })
    } else {
        let (f, shown) = if console {
            (d, nothing_shown())
        } else {
            status_shown(d, t, s, edge, width)
        };
        let (q, more) = texts_printed(f.printer, end_texts(s, edge, status, output, f.printer.color));
        (
            ConsoleView {
                printer: q,
                counts: ProgressCounts {
                    running: f.counts.running.wrapping_sub(1),
                    ..f.counts
                },
                ..f
            },
            ShownView { before: first + shown.before, ..shown }.and(more),
        )
    }
}

/// A command that is dropped from the plan leaves no trace in the numbers.
pub proof fn law_dropped_commands_do_not_count(c: ProgressCounts, before: i64)
    ensures
        c.planned(before).dropped(before) == c,
        c.dropped(before).planned(before) == c,
{
}

/// A command that was planned and has run has moved the numbers of commands that
/// were planned, started and finished by one each and taken its time; nothing of it
/// is left to do.
pub proof fn law_finished_commands_are_counted(
    c: ProgressCounts,
    before: i64,
    start: i64,
    end: i64,
)
    requires
        0 <= c.finished <= c.started <= c.total < i64::MAX,
        0 <= c.cpu_time,
        0 <= end - start,
        c.cpu_time + (end - start) <= i64::MAX,
    ensures
        ({
            let d = c.planned(before).began(start).ended(start, end, before);
            &&& d.total == c.total + 1
            &&& d.started == c.started + 1
            &&& d.finished == c.finished + 1
            &&& d.cpu_time == c.cpu_time + (end - start)
            &&& d.time == end
            &&& d.predictable_left == c.predictable_left
            &&& d.predictable_time_left == c.predictable_time_left
            &&& d.unpredictable_left == c.unpredictable_left
        }),
{
}

/// The part of the commands that has finished lies between nothing and all of them,
/// and is rounded down.
pub proof fn law_percentages_are_rounded_down(c: ProgressCounts)
    requires
        0 <= c.finished <= c.total,
        0 < c.total,
    ensures
        0 <= percent(c) <= 100,
        percent(c) == 100 <==> c.finished == c.total,
        percent(c) * c.total <= 100 * c.finished < (percent(c) + 1) * c.total,
{
    let n = 100 * c.finished;
    let m = c.total as int;
    let q = n / m;
    assert(q * m <= n < (q + 1) * m && 0 <= q) by (nonlinear_arith)
        requires
            0 <= n,
            0 < m,
            q == n / m,
    ;
    assert(q <= 100 && (q == 100 <==> n == 100 * m)) by (nonlinear_arith)
        requires
            0 <= n <= 100 * m,
            0 < m,
            q * m <= n < (q + 1) * m,
    ;
    if c.finished == 0 {
        assert(n == 0);
        assert(percent(c) == 0);
        assert(0 * m == 0 && 1 * m == m);
    } else {
        assert(percent(c) == q);
    }
}

proof fn lemma_two_digits(n: nat)
    requires
        n < 60,
    ensures
        two_digits(n).len() == 2,
        crate::text::all_digits(two_digits(n)),
        crate::text::decimal_value(two_digits(n)) == n,
{
    let d = two_digits(n);
    crate::text::law_decimal_reads_back(n);
    if n < 10 {
        assert(d.drop_last() =~= seq!['0']);
        assert(seq!['0'].drop_last() =~= Seq::<char>::empty());
        assert(crate::text::decimal_value(Seq::<char>::empty()) == 0);
        assert(crate::text::decimal_value(seq!['0']) == 0);
        assert(d.last() == decimal(n).last());
        assert(decimal(n).drop_last() =~= Seq::<char>::empty());
        assert forall|k: int| 0 <= k < d.len() implies '0' <= #[trigger] d[k] <= '9' by {
            if k == 1 {
                assert(d[k] == decimal(n)[0]);
            }
        }
    } else {
        assert(n / 10 < 10);
        assert(decimal(n / 10).len() == 1);
    }
}

/// A clock shows hours, minutes and seconds in which the time can be told again,
/// minutes and seconds with two digits each.
pub proof fn law_clocks_tell_the_time(h: nat, m: nat, s: nat) -> (d: (Seq<char>, Seq<char>, Seq<char>))
    requires
        m < 60,
        s < 60,
    ensures
        clock_text(h * 3600 + m * 60 + s, true) == d.0 + ":"@ + d.1 + ":"@ + d.2,
        clock_text(m * 60 + s, false) == d.1 + ":"@ + d.2,
        crate::text::all_digits(d.0) && crate::text::decimal_value(d.0) == h,
        crate::text::all_digits(d.1) && crate::text::decimal_value(d.1) == m,
        crate::text::all_digits(d.2) && crate::text::decimal_value(d.2) == s,
        d.1.len() == 2,
        d.2.len() == 2,
{
    let t = h * 3600 + m * 60 + s;
    assert(t / 3600 == h);
    assert(t % 3600 == m * 60 + s);
    assert(t % 3600 / 60 == m);
    assert(t % 60 == s);
    assert((m * 60 + s) / 60 == m);
    assert((m * 60 + s) % 60 == s);
    crate::text::law_decimal_reads_back(h);
    lemma_two_digits(m);
    lemma_two_digits(s);
    (decimal(h), two_digits(m), two_digits(s))
}

} // verus!
