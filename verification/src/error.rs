//! Errors of the build engine.

use vstd::prelude::*;
use vstd::string::*;

verus! {

/// The result type used throughout this crate.
pub type Result<T> = core::result::Result<T, Error>;

/// An error produced while loading a manifest or running a build.
#[derive(Debug)]
pub enum Error {
    /// A filesystem operation failed. The first string names the path involved,
    /// the second says what went wrong.
    Io(String, String),
    /// A manifest, dyndep file or depfile could not be parsed. Messages read
    /// `file:line: message`.
    Manifest(String),
    /// A problem with the requested targets or the shape of the graph: an
    /// unknown target, a missing input, a dependency cycle. Reported before any
    /// command runs.
    Graph(String),
    /// A condition that makes continuing pointless, such as a manifest that
    /// requires a newer version than this engine implements.
    Fatal(String),
    /// The build ran but did not finish successfully.
    Build(String),
    /// The build was interrupted.
    Interrupted,
}

/// An [`Error`] by what it says.
pub enum ErrorView {
    Io(Seq<char>, Seq<char>),
    Manifest(Seq<char>),
    Graph(Seq<char>),
    Fatal(Seq<char>),
    Build(Seq<char>),
    Interrupted,
}

impl View for Error {
    type V = ErrorView;

    open spec fn view(&self) -> ErrorView {
        match self {
            Error::Io(p, m) => ErrorView::Io(p@, m@),
            Error::Manifest(m) => ErrorView::Manifest(m@),
            Error::Graph(m) => ErrorView::Graph(m@),
            Error::Fatal(m) => ErrorView::Fatal(m@),
            Error::Build(m) => ErrorView::Build(m@),
            Error::Interrupted => ErrorView::Interrupted,
        }
    }
}

/// The text of an error message.
pub open spec fn error_text(e: ErrorView) -> Seq<char> {
    match e {
        ErrorView::Io(path, m) => if path.len() == 0 {
            m
        } else {
            path + ": "@ + m
        },
        ErrorView::Manifest(m) => m,
        ErrorView::Graph(m) => m,
        ErrorView::Fatal(m) => m,
        ErrorView::Build(m) => m,
        ErrorView::Interrupted => "interrupted by user"@,
    }
}

impl Error {
    /// Re-classify a build error as a graph error.
    pub fn into_graph(self) -> (r: Error)
        ensures
            r@ == (match self@ {
                ErrorView::Build(m) => ErrorView::Graph(m),
                other => other,
            }),
    {
        match self {
            Error::Build(m) => Error::Graph(m),
            other => other,
        }
    }

    /// True if this error was caused by an interruption rather than a failure.
    pub fn is_interrupted(&self) -> (r: bool)
        ensures
            r == (self@ is Interrupted),
    {
        match self {
            Error::Interrupted => true,
            _ => false,
        }
    }

    /// The message to show for this error.
    pub fn message(&self) -> (r: String)
        ensures
            r@ == error_text(self@),
    {
        match self {
            Error::Io(path, m) => {
                if path.as_str().is_empty() {
                    m.clone()
                } else {
                    let mut s = path.clone();
                    s.append(": ");
                    s.append(m.as_str());
                    s
                }
            },
            Error::Manifest(m) => m.clone(),
            Error::Graph(m) => m.clone(),
            Error::Fatal(m) => m.clone(),
            Error::Build(m) => m.clone(),
            Error::Interrupted => "interrupted by user".to_owned(),
        }
    }
}

} // verus!
