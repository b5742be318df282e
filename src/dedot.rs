use vstd::prelude::*;
use vstd::string::*;

use crate::model::{assemble, comp_text, lemma_assemble_take, piece, resolved};
use crate::resolve::resolve_tokens;
use crate::style::{CompView, Kind, Style};
use crate::tokens::{
    chars_of, find_dot_segment, has_dot_segment, token_view, token_wf, tokens_wf, tokenize, views,
    Token,
};

verus! {

/// A path with its dots resolved: the input itself when nothing had to
/// change, else a newly built string.
pub enum Dedot<'a> {
    Unchanged(&'a str),
    Rebuilt(String),
}

impl<'a> View for Dedot<'a> {
    type V = Seq<char>;

    open spec fn view(&self) -> Seq<char> {
        match self {
            Dedot::Unchanged(s) => s@,
            Dedot::Rebuilt(s) => s@,
        }
    }
}

impl<'a> Dedot<'a> {
    /// The text of the resolved path.
    pub fn as_str(&self) -> (r: &str)
        ensures
            r@ == self@,
    {
        match self {
            Dedot::Unchanged(s) => s,
            Dedot::Rebuilt(s) => s.as_str(),
        }
    }

    /// Whether the input was handed back without building anything.
    pub fn is_unchanged(&self) -> (r: bool)
        ensures
            r == self is Unchanged,
    {
        match self {
            Dedot::Unchanged(_) => true,
            Dedot::Rebuilt(_) => false,
        }
    }

    /// The text of the resolved path as an owned string.
    pub fn into_string(self) -> (r: String)
        ensures
            r@ == self@,
    {
        match self {
            Dedot::Unchanged(s) => s.to_owned(),
            Dedot::Rebuilt(s) => s,
        }
    }
}

fn sep_str(style: Style) -> (r: &'static str)
    ensures
        r@ == seq![style.sep()],
{
    proof {
        reveal_strlit("/");
        reveal_strlit("\\");
    }
    match style {
        Style::Posix => "/",
        Style::Windows => "\\",
    }
}

/// The text of token `t`.
fn comp_str<'a>(style: Style, t: &Token, path: &'a str, cwd: &'a str) -> (r: &'a str)
    requires
        token_wf(*t, path@, cwd@),
    ensures
        r@ == comp_text(style, token_view(*t, path@, cwd@)),
{
    proof {
        reveal_strlit(".");
        reveal_strlit("..");
    }
    match t.kind {
        Kind::Root => sep_str(style),
        Kind::CurDir => ".",
        Kind::ParentDir => "..",
        _ => {
            let src = if t.from_cwd {
                cwd
            } else {
                path
            };
            src.substring_char(t.start, t.end)
        },
    }
}

/// The text that the tokens spell.
fn build(style: Style, ts: &Vec<Token>, path: &str, cwd: &str) -> (r: String)
    requires
        tokens_wf(ts@, path@, cwd@),
    ensures
        r@ == assemble(style, views(ts@, path@, cwd@)),
{
    let ghost vs = views(ts@, path@, cwd@);
    let mut out = String::new();
    let mut k: usize = 0;
    assert(vs.take(0) =~= Seq::<CompView>::empty());
    while k < ts.len()
        invariant
            k <= ts.len(),
            vs == views(ts@, path@, cwd@),
            tokens_wf(ts@, path@, cwd@),
            out@ == assemble(style, vs.take(k as int)),
        decreases ts.len() - k,
    {
        proof {
            lemma_assemble_take(style, vs, k as int);
        }
        let t = &ts[k];
        assert(token_view(*t, path@, cwd@) == vs[k as int]);
        assert(token_wf(ts@[k as int], path@, cwd@));
        if k > 0 {
            let prev = &ts[k - 1];
            assert(token_view(*prev, path@, cwd@) == vs[k - 1]);
            if !(prev.kind == Kind::Root || t.kind == Kind::Root || prev.kind == (Kind::Prefix {
                rooted: false,
            })) {
                out.append(sep_str(style));
            }
        }
        out.append(comp_str(style, t, path, cwd));
        assert(out@ =~= assemble(style, vs.take(k as int)) + piece(style, vs, k as int));
        k = k + 1;
    }
    assert(vs.take(ts.len() as int) =~= vs);
    out
}

/// Resolves the `.` and `..` segments of `path` lexically, taking `cwd`
/// as the working directory: a leading `.` stands for `cwd`, a leading `..`
/// for its parent (the parent of a root is the root), a later `.` is
/// dropped and a later `..` removes the name before it, if any is left
/// after the path's own prefix and root. A path whose text has no `.` or
/// `..` segment is handed back itself, with nothing built.
pub fn dedot_str<'a>(path: &'a str, cwd: &str, style: Style) -> (r: Dedot<'a>)
    ensures
        r is Unchanged <==> !has_dot_segment(style, path@),
        r is Unchanged ==> r->Unchanged_0 == path,
        r@ == resolved(style, path@, cwd@),
{
    let pc = chars_of(path);
    if !find_dot_segment(style, &pc) {
        return Dedot::Unchanged(path);
    }
    let cc = chars_of(cwd);
    let pt = tokenize(style, &pc, false);
    let ct = tokenize(style, &cc, true);
    assert(views(pt@, pc@, cc@) =~= views(pt@, pc@, pc@));
    assert(views(ct@, pc@, cc@) =~= views(ct@, cc@, cc@));
    assert(tokens_wf(pt@, pc@, cc@));
    assert(tokens_wf(ct@, pc@, cc@)) by {
        assert forall|k: int| 0 <= k < ct@.len() implies token_wf(#[trigger] ct@[k], pc@, cc@) by {
            assert(token_wf(ct@[k], cc@, cc@));
        }
    }
    let rt = resolve_tokens(&pt, &ct, &pc, &cc);
    Dedot::Rebuilt(build(style, &rt, path, cwd))
}

} // verus!
