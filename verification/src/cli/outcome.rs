//! What the tool says, and the code it exits with, when something stops it.

use vstd::prelude::*;
use vstd::string::*;

use crate::error::Error;
use crate::exec::ExitStatus;
use crate::parse::quoted;

verus! {

use crate::cli::fatal_text;
use crate::error::{error_text, ErrorView};

/// How a build that stopped is told of.
pub enum Message {
    /// As information, behind the progress of the build.
    Info(String),
    /// As an error, behind the progress of the build.
    Error(String),
    /// On the error stream, as it is.
    Plain(String),
}

/// A [`Message`] by what it says.
pub enum MessageView {
    Info(Seq<char>),
    Error(Seq<char>),
    Plain(Seq<char>),
}

impl View for Message {
    type V = MessageView;

    open spec fn view(&self) -> MessageView {
        match self {
            Message::Info(t) => MessageView::Info(t@),
            Message::Error(t) => MessageView::Error(t@),
            Message::Plain(t) => MessageView::Plain(t@),
        }
    }
}

/// How a build that stopped with an error is told of, and the code to exit with.
/// A build whose commands failed exits with the code of a failed command.
pub open spec fn stop_told(e: ErrorView, code: ExitStatus) -> (MessageView, i32) {
    match e {
        ErrorView::Interrupted => (
            MessageView::Info("build stopped: interrupted by user."@),
            ExitStatus::interruption().code(),
        ),
        ErrorView::Fatal(m) => (MessageView::Plain(fatal_text(m)), 1),
        ErrorView::Build(m) => (
            MessageView::Info("build stopped: "@ + m + "."@),
            if code.success() {
                1
            } else {
                code.code()
            },
        ),
        other => (MessageView::Error(error_text(other)), 1),
    }
}

/// What the tool prints, to the output and to the error stream, when it fails
/// before or without a build, and the code to exit with.
pub open spec fn failure_told(e: ErrorView) -> (Seq<char>, Seq<char>, i32) {
    match e {
        ErrorView::Interrupted => (
            "shuriken: build stopped: interrupted by user.\n"@,
            Seq::empty(),
            ExitStatus::interruption().code(),
        ),
        ErrorView::Fatal(m) => (Seq::empty(), fatal_text(m), 1),
        ErrorView::Build(m) => ("shuriken: build stopped: "@ + m + ".\n"@, Seq::empty(), 1),
        other => (Seq::empty(), "shuriken: error: "@ + error_text(other) + "\n"@, 1),
    }
}

/// How a build that stopped with an error is told of, and the code to exit with,
/// where `code` is that of the last command that failed, if any.
pub fn build_stopped(e: &Error, code: ExitStatus) -> (r: (Message, i32))
    ensures
        (r.0@, r.1) == stop_told(e@, code),
{
    match e {
        Error::Interrupted => (
            Message::Info("build stopped: interrupted by user.".to_owned()),
            ExitStatus::interruption().code(),
        ),
        Error::Fatal(m) => (Message::Plain(quoted("shuriken: fatal: ", m.as_str(), "\n")), 1),
        Error::Build(m) => (
            Message::Info(quoted("build stopped: ", m.as_str(), ".")),
            if code.success() {
                1
            } else {
                code.code()
            },
        ),
        _ => (Message::Error(e.message()), 1),
    }
}

/// What the tool prints, to the output and to the error stream, when it fails
/// before or without a build, and the code to exit with.
pub fn failure(e: &Error) -> (r: (String, String, i32))
    ensures
        (r.0@, r.1@, r.2) == failure_told(e@),
{
    let nothing = String::new();
    assert(nothing@ =~= Seq::empty());
    match e {
        Error::Interrupted => (
            "shuriken: build stopped: interrupted by user.\n".to_owned(),
            nothing,
            ExitStatus::interruption().code(),
        ),
        Error::Fatal(m) => (nothing, quoted("shuriken: fatal: ", m.as_str(), "\n"), 1),
        // A build that ran and stopped is told of on the output, so that what
        // the failed command printed stays last on the error stream.
        Error::Build(m) => (quoted("shuriken: build stopped: ", m.as_str(), ".\n"), nothing, 1),
        _ => (nothing, quoted("shuriken: error: ", e.message().as_str(), "\n"), 1),
    }
}

/// A build in which a command failed exits with the code of a failed command,
/// and one that was interrupted with that of an interruption; nothing that
/// stops the tool exits with success.
pub proof fn law_stopping_is_no_success(e: ErrorView, code: ExitStatus)
    ensures
        stop_told(e, code).1 != 0,
        failure_told(e).2 != 0,
        e is Build && !code.success() ==> stop_told(e, code).1 == code.code(),
        e is Interrupted ==> stop_told(e, code).1 == 130,
{
}

} // verus!
