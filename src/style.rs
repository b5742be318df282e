use vstd::prelude::*;

verus! {

/// The flavour of path text being read: POSIX paths separated by `/`, or
/// Windows paths separated by `\` (where `/` is accepted too) and possibly
/// starting with a drive or share prefix.
#[derive(Clone, Copy, Debug, PartialEq, Eq, Structural)]
pub enum Style {
    Posix,
    Windows,
}

impl Style {
    /// Whether `c` separates components in this style.
    pub open spec fn is_sep(self, c: char) -> bool {
        c == '/' || (self == Style::Windows && c == '\\')
    }

    /// The separator written between components of a rebuilt path.
    pub open spec fn sep(self) -> char {
        match self {
            Style::Posix => '/',
            Style::Windows => '\\',
        }
    }

    pub fn is_separator(&self, c: char) -> (r: bool)
        ensures
            r == self.is_sep(c),
    {
        c == '/' || (*self == Style::Windows && c == '\\')
    }

    /// The main separator of this style.
    pub fn separator(&self) -> (r: char)
        ensures
            r == self.sep(),
    {
        match self {
            Style::Posix => '/',
            Style::Windows => '\\',
        }
    }
}

/// What a component of a path is.
#[derive(Clone, Copy, Debug, PartialEq, Eq, Structural)]
pub enum Kind {
    /// A Windows drive or share designator; `rooted` when it implies a root
    /// of its own (every prefix but a plain drive such as `C:`).
    Prefix { rooted: bool },
    /// The root separator.
    Root,
    /// A `.` segment.
    CurDir,
    /// A `..` segment.
    ParentDir,
    /// Any other segment.
    Normal,
}

/// The mathematical value of a component: its kind, and for a prefix or a
/// normal segment its text (empty for the other kinds).
pub struct CompView {
    pub kind: Kind,
    pub text: Seq<char>,
}

/// Whether a component is a name that a later `..` may remove.
pub open spec fn is_name(c: CompView) -> bool {
    c.kind is CurDir || c.kind is ParentDir || c.kind is Normal
}

/// Whether a component is a `.` or `..` segment.
pub open spec fn is_dot(c: CompView) -> bool {
    c.kind is CurDir || c.kind is ParentDir
}

pub open spec fn root_comp() -> CompView {
    CompView { kind: Kind::Root, text: Seq::empty() }
}

pub open spec fn cur_comp() -> CompView {
    CompView { kind: Kind::CurDir, text: Seq::empty() }
}

pub open spec fn parent_comp() -> CompView {
    CompView { kind: Kind::ParentDir, text: Seq::empty() }
}

} // verus!
