use vstd::prelude::*;

use crate::style::{is_dot, is_name, CompView, Kind, Style};
use crate::tokens::{components, has_dot_segment};

verus! {

/// The components of the parent: the last one dropped when it is a name.
/// A root, a prefix or nothing at all is its own parent.
pub open spec fn parent_of(cs: Seq<CompView>) -> Seq<CompView> {
    if cs.len() > 0 && is_name(cs.last()) {
        cs.drop_last()
    } else {
        cs
    }
}

/// The components without a leading prefix.
pub open spec fn without_prefix(cs: Seq<CompView>) -> Seq<CompView> {
    if cs.len() > 0 && cs[0].kind is Prefix {
        cs.skip(1)
    } else {
        cs
    }
}

/// One component folded into the list: `.` is dropped, `..` removes the
/// last name if there is one (and is dropped otherwise), anything else is
/// appended.
pub open spec fn step(ts: Seq<CompView>, c: CompView) -> Seq<CompView> {
    match c.kind {
        Kind::CurDir => ts,
        Kind::ParentDir => parent_of(ts),
        _ => ts.push(c),
    }
}

/// The components `rest` folded, left to right, into `ts`.
pub open spec fn fold(ts: Seq<CompView>, rest: Seq<CompView>) -> Seq<CompView>
    decreases rest.len(),
{
    if rest.len() == 0 {
        ts
    } else {
        step(fold(ts, rest.drop_last()), rest.last())
    }
}

/// How many leading components of `p` fix its anchor.
pub open spec fn anchor_len(p: Seq<CompView>) -> int {
    if p.len() == 0 {
        0
    } else {
        match p[0].kind {
            Kind::Prefix { .. } => if p.len() > 1 && (p[1].kind is Root || is_dot(p[1])) {
                2
            } else {
                1
            },
            Kind::Normal => 0,
            _ => 1,
        }
    }
}

/// Where the resolution of `p` starts: its own prefix and root, the
/// working directory `cwd` for a leading `.`, or the parent of `cwd` for a
/// leading `..` (after a drive prefix, `cwd` without its own prefix).
pub open spec fn anchor(p: Seq<CompView>, cwd: Seq<CompView>) -> Seq<CompView> {
    if p.len() == 0 {
        Seq::empty()
    } else {
        match p[0].kind {
            Kind::Prefix { .. } => if p.len() > 1 && p[1].kind is Root {
                p.take(2)
            } else if p.len() > 1 && p[1].kind is CurDir {
                seq![p[0]] + without_prefix(cwd)
            } else if p.len() > 1 && p[1].kind is ParentDir {
                seq![p[0]] + without_prefix(parent_of(cwd))
            } else {
                p.take(1)
            },
            Kind::Root => p.take(1),
            Kind::CurDir => cwd,
            Kind::ParentDir => parent_of(cwd),
            Kind::Normal => Seq::empty(),
        }
    }
}

/// The components of `p` resolved against those of the working directory.
pub open spec fn resolve(p: Seq<CompView>, cwd: Seq<CompView>) -> Seq<CompView> {
    fold(anchor(p, cwd), p.skip(anchor_len(p)))
}

/// The text of one component in a rebuilt path.
pub open spec fn comp_text(style: Style, c: CompView) -> Seq<char> {
    match c.kind {
        Kind::Root => seq![style.sep()],
        Kind::CurDir => seq!['.'],
        Kind::ParentDir => seq!['.', '.'],
        _ => c.text,
    }
}

/// What stands between two neighbouring components: nothing next to a
/// root or after a drive prefix, else a separator.
pub open spec fn glue(style: Style, prev: CompView, next: CompView) -> Seq<char> {
    if prev.kind is Root || next.kind is Root || prev.kind == (Kind::Prefix { rooted: false }) {
        Seq::empty()
    } else {
        seq![style.sep()]
    }
}

/// The text that component `k` of `ts` adds to a rebuilt path.
pub open spec fn piece(style: Style, ts: Seq<CompView>, k: int) -> Seq<char> {
    if k == 0 {
        comp_text(style, ts[0])
    } else {
        glue(style, ts[k - 1], ts[k]) + comp_text(style, ts[k])
    }
}

/// The path text that the components `ts` spell.
pub open spec fn assemble(style: Style, ts: Seq<CompView>) -> Seq<char>
    decreases ts.len(),
{
    if ts.len() == 0 {
        Seq::empty()
    } else {
        assemble(style, ts.drop_last()) + piece(style, ts, ts.len() - 1)
    }
}

/// Whether some component is a `.` or a `..`.
pub open spec fn has_dots(cs: Seq<CompView>) -> bool {
    exists|i: int| 0 <= i < cs.len() && is_dot(#[trigger] cs[i])
}

/// The resolved components of the path `p` against the working directory
/// `cwd`.
pub open spec fn dedot_comps(style: Style, p: Seq<char>, cwd: Seq<char>) -> Seq<CompView> {
    resolve(components(style, p), components(style, cwd))
}

/// The path `p` with its dots resolved against the working directory `cwd`.
pub open spec fn dedot(style: Style, p: Seq<char>, cwd: Seq<char>) -> Seq<char> {
    assemble(style, dedot_comps(style, p, cwd))
}

/// What resolving `p` against `cwd` gives: `p` itself when its text has no
/// `.` or `..` segment, else the text of its resolved components.
pub open spec fn resolved(style: Style, p: Seq<char>, cwd: Seq<char>) -> Seq<char> {
    if has_dot_segment(style, p) {
        dedot(style, p, cwd)
    } else {
        p
    }
}

pub proof fn lemma_assemble_take(style: Style, ts: Seq<CompView>, k: int)
    requires
        0 <= k < ts.len(),
    ensures
        assemble(style, ts.take(k + 1)) == assemble(style, ts.take(k)) + piece(style, ts, k),
{
    let t = ts.take(k + 1);
    assert(t.drop_last() =~= ts.take(k));
    if k > 0 {
        assert(piece(style, t, k) == piece(style, ts, k));
    }
}

pub proof fn lemma_assemble_prefix(style: Style, ts: Seq<CompView>, j: int)
    requires
        0 <= j <= ts.len(),
    ensures
        assemble(style, ts.take(j)).len() <= assemble(style, ts).len(),
        assemble(style, ts).take(assemble(style, ts.take(j)).len() as int) == assemble(
            style,
            ts.take(j),
        ),
    decreases ts.len() - j,
{
    if j == ts.len() {
        assert(ts.take(j) =~= ts);
        assert(assemble(style, ts).take(assemble(style, ts).len() as int) =~= assemble(style, ts));
    } else {
        lemma_assemble_prefix(style, ts, j + 1);
        lemma_assemble_take(style, ts, j);
        let a = assemble(style, ts.take(j));
        let b = assemble(style, ts.take(j + 1));
        let x = assemble(style, ts);
        assert(x.take(a.len() as int) =~= b.take(a.len() as int));
        assert(b.take(a.len() as int) =~= a);
    }
}

} // verus!
