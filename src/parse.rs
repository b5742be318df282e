use vstd::prelude::*;
use vstd::string::*;

use crate::cwd::CWD;
use crate::dedot::{dedot_str, Dedot};
use crate::model::resolved;
use crate::prefix::{lemma_prefix_bounds, prefix_of, read_prefix};
use crate::style::Style;
use crate::tokens::{chars_of, has_dot_segment};

verus! {

/// Why a path could not be resolved.
#[derive(Clone, Copy, Debug, PartialEq, Eq, Structural)]
pub enum DedotError {
    /// The working directory was needed and is not known.
    CwdUnavailable,
}

/// Resolving the dots of a path.
pub trait ParseDot {
    /// The text of the path.
    spec fn dot_text(&self) -> Seq<char>;

    /// Removes the dots of the path against the working directory `cwd`,
    /// handing the path back itself when its text has no `.` or `..`
    /// segment.
    fn parse_dot_from<'a>(&'a self, cwd: &str, style: Style) -> (r: Dedot<'a>)
        ensures
            r is Unchanged <==> !has_dot_segment(style, self.dot_text()),
            r@ == resolved(style, self.dot_text(), cwd@),
    ;

    /// Removes the dots of the path against the working directory that
    /// `cwd` holds. A non-empty path fails when that directory is not
    /// known.
    fn parse_dot<'a>(&'a self, cwd: &CWD, style: Style) -> (r: Result<Dedot<'a>, DedotError>)
        ensures
            r is Err <==> (cwd@ is None && self.dot_text().len() > 0),
            r is Err ==> r->Err_0 == DedotError::CwdUnavailable,
            r is Ok ==> r->Ok_0@ == resolved(
                style,
                self.dot_text(),
                match cwd@ {
                    Some(c) => c,
                    None => Seq::empty(),
                },
            ),
            r is Ok ==> (r->Ok_0 is Unchanged <==> !has_dot_segment(style, self.dot_text())),
    ;
}

impl ParseDot for str {
    open spec fn dot_text(&self) -> Seq<char> {
        self@
    }

    fn parse_dot_from<'a>(&'a self, cwd: &str, style: Style) -> (r: Dedot<'a>) {
        dedot_str(self, cwd, style)
    }

    fn parse_dot<'a>(&'a self, cwd: &CWD, style: Style) -> (r: Result<Dedot<'a>, DedotError>) {
        match cwd.get() {
            Some(c) => Ok(dedot_str(self, c, style)),
            None => {
                if self.is_empty() {
                    proof {
                        reveal_strlit("");
                    }
                    Ok(dedot_str(self, "", style))
                } else {
                    Err(DedotError::CwdUnavailable)
                }
            },
        }
    }
}

impl ParseDot for String {
    open spec fn dot_text(&self) -> Seq<char> {
        self@
    }

    fn parse_dot_from<'a>(&'a self, cwd: &str, style: Style) -> (r: Dedot<'a>) {
        self.as_str().parse_dot_from(cwd, style)
    }

    fn parse_dot<'a>(&'a self, cwd: &CWD, style: Style) -> (r: Result<Dedot<'a>, DedotError>) {
        self.as_str().parse_dot(cwd, style)
    }
}

/// Reading the Windows prefix of a path (a drive such as `C:`, or a share
/// such as `\\server\share`).
pub trait ParsePrefix {
    /// The text of the path.
    spec fn prefix_text(&self) -> Seq<char>;

    /// The prefix that the path starts with, if any.
    fn get_path_prefix(&self) -> (r: Option<&str>)
        ensures
            r is Some <==> prefix_of(self.prefix_text()).0 > 0,
            r is Some ==> r->0@ == self.prefix_text().take(prefix_of(self.prefix_text()).0),
    ;
}

impl ParsePrefix for str {
    open spec fn prefix_text(&self) -> Seq<char> {
        self@
    }

    fn get_path_prefix(&self) -> (r: Option<&str>) {
        let cs = chars_of(self);
        let (k, _) = read_prefix(&cs);
        proof {
            lemma_prefix_bounds(self@);
        }
        if k > 0 {
            let r = self.substring_char(0, k);
            assert(r@ =~= self@.take(k as int));
            Some(r)
        } else {
            None
        }
    }
}

impl ParsePrefix for String {
    open spec fn prefix_text(&self) -> Seq<char> {
        self@
    }

    fn get_path_prefix(&self) -> (r: Option<&str>) {
        self.as_str().get_path_prefix()
    }
}

} // verus!
