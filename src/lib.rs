//! Lexical resolution of `.` and `..` in path text, without touching the
//! file system.
//!
//! A path is read into components ([`tokens::components`]), resolved against
//! a working directory ([`model::resolve`]) and spelled again
//! ([`model::assemble`]). A leading `.` stands for the working directory and
//! a leading `..` for its parent; later `.` segments are dropped and a later
//! `..` removes the name before it, but never the prefix or root the path
//! starts from. A path whose text has no `.` or `..` segment is handed
//! back itself, with nothing built.
//! POSIX and Windows path text are both read, chosen by [`Style`].
//! The laws that hold of the resolution are proved in [`laws`].

pub mod canon;
pub mod cwd;
pub mod dedot;
pub mod laws;
pub mod model;
pub mod parse;
pub mod prefix;
mod resolve;
pub mod style;
pub mod tokens;

pub use cwd::CWD;
pub use dedot::{dedot_str, Dedot};
pub use parse::{DedotError, ParseDot, ParsePrefix};
pub use style::{CompView, Kind, Style};
