//! A ninja-compatible build engine.
//!
//! Manifests are parsed into a graph of files and commands ([`state`]), the
//! graph is scanned for what is out of date ([`graph`]), and what has to run is
//! planned and scheduled ([`plan`], [`build`]). The logs that carry information
//! from one build to the next are in [`build_log`] and [`deps_log`].
//!
//! The library decides; it does not act. Files are reached through
//! [`disk::DiskInterface`], and whoever drives a build runs the commands, tells
//! the time and keeps the files of the logs. [`engine`] and [`cli`] say what is
//! to be done.

pub mod build;
pub mod build_log;
pub mod canon;
pub mod clean;
pub mod cli;
pub mod depfile;
pub mod deps_log;
pub mod disk;
pub mod dyndep;
pub mod engine;
pub mod error;
pub mod escape;
pub mod eval;
pub mod exec;
pub mod graph;
pub mod hash;
pub mod lexer;
pub mod msvc;
pub mod parse;
pub mod plan;
pub mod scan;
pub mod state;
pub mod status;
pub mod text;
pub mod text_map;
pub mod tools;
pub mod util;
pub mod version;

pub use build::{BuildConfig, Builder};
pub use build_log::{BuildLog, LogEntry};
pub use deps_log::DepsLog;
pub use disk::{DiskInterface, MemDisk};
pub use engine::{BuildSummary, Engine, EngineOptions};
pub use error::{Error, Result};
pub use exec::{CommandResult, CommandRunner, ExitStatus};
pub use graph::DependencyScan;
pub use parse::{ManifestParser, ParserOptions, PhonyCycleAction};
pub use plan::Plan;
pub use state::{Edge, EdgeId, Node, NodeId, Pool, PoolId, State};
pub use status::{Status, Verbosity};
pub use version::{NINJA_COMPAT_VERSION, SHURIKEN_VERSION};
