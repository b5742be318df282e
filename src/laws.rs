use vstd::prelude::*;

use crate::model::{
    anchor, anchor_len, assemble, dedot, dedot_comps, fold, has_dots, parent_of, resolved, resolve,
    step,
};
use crate::canon::{
    clean, drive_like, good_name, is_lead, lemma_components_read, lemma_fold_from_empty,
    lemma_no_dot_segment, lemma_parent_clean, lemma_read_back, lemma_reader_front,
    lemma_resolve_clean, lemma_round_trip, no_drive_dots,
};
use crate::prefix::{lemma_next_sep_bounds, lemma_prefix_bounds, open_verbatim_unc, prefix_of};
use crate::style::{is_dot, is_name, parent_comp, root_comp, CompView, Style};
use crate::tokens::{body_from, components, dots_from, has_dot_segment, prefix_comps, seg_comp};

verus! {

/// Folding components that hold no `.` or `..` appends them.
pub proof fn lemma_fold_plain(ts: Seq<CompView>, rest: Seq<CompView>)
    requires
        forall|i: int| 0 <= i < rest.len() ==> !is_dot(#[trigger] rest[i]),
    ensures
        fold(ts, rest) == ts + rest,
    decreases rest.len(),
{
    if rest.len() > 0 {
        assert(!is_dot(rest[rest.len() - 1]));
        lemma_fold_plain(ts, rest.drop_last());
        assert(ts + rest =~= (ts + rest.drop_last()).push(rest.last()));
    }
}

/// Components without `.` or `..` resolve to themselves.
pub proof fn lemma_resolve_plain(p: Seq<CompView>, cwd: Seq<CompView>)
    requires
        !has_dots(p),
    ensures
        resolve(p, cwd) == p,
{
    assert forall|i: int| 0 <= i < p.len() implies !is_dot(#[trigger] p[i]) by {
        if is_dot(p[i]) {
            assert(has_dots(p));
        }
    }
    let a = anchor_len(p);
    if p.len() > 0 {
        assert(!is_dot(p[0]));
        if p.len() > 1 {
            assert(!is_dot(p[1]));
        }
    }
    assert(anchor(p, cwd) =~= p.take(a));
    lemma_fold_plain(p.take(a), p.skip(a));
    assert(p.take(a) + p.skip(a) =~= p);
}

/// A path whose components have no `.` or `..` and spell it exactly
/// resolves to itself, whatever the working directory.
pub proof fn lemma_clean_path_kept(style: Style, p: Seq<char>, cwd: Seq<char>)
    requires
        !has_dots(components(style, p)),
        assemble(style, components(style, p)) == p,
    ensures
        dedot(style, p, cwd) == p,
{
    lemma_resolve_plain(components(style, p), components(style, cwd));
}

/// The components of `..`.
pub proof fn lemma_components_parent(style: Style)
    ensures
        components(style, seq!['.', '.']) == seq![parent_comp()],
{
    let s = seq!['.', '.'];
    assert(!crate::prefix::is_win_sep(s[0]));
    assert(prefix_of(s).0 == 0);
    assert(body_from(style, s, 0, 2) == seg_comp(s.subrange(0, 2)));
    assert(s.subrange(0, 2) =~= seq!['.', '.']);
    assert(seq!['.', '.'] != seq!['.']) by {
        assert(seq!['.', '.'].len() != seq!['.'].len());
    }
    assert(!style.is_sep(s[0]) && !style.is_sep(s[1]));
    assert(body_from(style, s, 0, 1) == body_from(style, s, 0, 2));
    assert(body_from(style, s, 0, 0) == body_from(style, s, 0, 1));
    assert(body_from(style, s, 0, 0) == seq![parent_comp()]);
    assert(Seq::<CompView>::empty() + seq![parent_comp()] =~= seq![parent_comp()]);
}

/// `..` alone resolves to the parent of the working directory, and to the
/// root when the working directory is the root.
pub proof fn lemma_parent_of_cwd(style: Style, cwd: Seq<char>)
    ensures
        dedot_comps(style, seq!['.', '.'], cwd) == parent_of(components(style, cwd)),
        dedot(style, seq!['.', '.'], cwd) == assemble(style, parent_of(components(style, cwd))),
        components(style, cwd) == seq![root_comp()] ==> dedot(style, seq!['.', '.'], cwd)
            == seq![style.sep()],
{
    lemma_components_parent(style);
    let p = seq![parent_comp()];
    let c = components(style, cwd);
    assert(p.skip(1) =~= Seq::<CompView>::empty());
    assert(resolve(p, c) == parent_of(c));
    if c == seq![root_comp()] {
        assert(parent_of(c) == c);
        assert(assemble(style, c.drop_last()) == Seq::<char>::empty());
        assert(assemble(style, c) =~= seq![style.sep()]);
    }
}

/// Folding never removes the leading components that are not names.
pub proof fn lemma_fold_keeps(ts: Seq<CompView>, rest: Seq<CompView>, k: int)
    requires
        0 <= k <= ts.len(),
        forall|i: int| 0 <= i < k ==> !is_name(#[trigger] ts[i]),
    ensures
        fold(ts, rest).len() >= k,
        fold(ts, rest).take(k) == ts.take(k),
    decreases rest.len(),
{
    if rest.len() > 0 {
        lemma_fold_keeps(ts, rest.drop_last(), k);
        let f = fold(ts, rest.drop_last());
        assert(f.take(k) == ts.take(k));
        assert forall|i: int| 0 <= i < k implies !is_name(#[trigger] f[i]) by {
            assert(f[i] == f.take(k)[i]);
            assert(ts[i] == ts.take(k)[i]);
        }
        let g = step(f, rest.last());
        if f.len() == k && k > 0 {
            assert(!is_name(f[k - 1]));
        }
        assert(g.len() >= k);
        assert(g.take(k) =~= f.take(k));
    }
}

/// The prefix and root that anchor the resolution of a path stay at the
/// front of the result: no `..` after them ever removes them.
pub proof fn lemma_anchor_kept(style: Style, p: Seq<char>, cwd: Seq<char>, k: int)
    requires
        0 <= k <= anchor(components(style, p), components(style, cwd)).len(),
        forall|i: int|
            0 <= i < k ==> !is_name(
                #[trigger] anchor(components(style, p), components(style, cwd))[i],
            ),
    ensures
        dedot_comps(style, p, cwd).len() >= k,
        dedot_comps(style, p, cwd).take(k) == anchor(
            components(style, p),
            components(style, cwd),
        ).take(k),
{
    let pc = components(style, p);
    let cc = components(style, cwd);
    lemma_fold_keeps(anchor(pc, cc), pc.skip(anchor_len(pc)), k);
}

/// Spelling the resolved components of a path and resolving that text
/// again gives the same text, as long as the working directory has no `.`
/// or `..` component of its own. For
/// Windows paths this is shown where neither the path nor the working
/// directory has a name that is a drive designator followed by `.` or `..`
/// (such as `C:..`) or starts with a verbatim UNC prefix that stops before
/// its share.
pub proof fn lemma_dedot_idempotent(style: Style, p: Seq<char>, cwd: Seq<char>)
    requires
        !has_dots(components(style, cwd)),
        style == Style::Windows ==> {
            &&& !open_verbatim_unc(p)
            &&& !open_verbatim_unc(cwd)
            &&& no_drive_dots(style, components(style, p))
            &&& no_drive_dots(style, components(style, cwd))
        },
    ensures
        dedot(style, dedot(style, p, cwd), cwd) == dedot(style, p, cwd),
{
    let pc = components(style, p);
    let cc = components(style, cwd);
    lemma_components_read(style, p);
    lemma_components_read(style, cwd);
    assert(clean(style, cc)) by {
        assert forall|i: int| 0 <= i < cc.len() implies is_lead(style, cc, i) || good_name(
            style,
            #[trigger] cc[i],
        ) by {
            if is_dot(cc[i]) {
                assert(has_dots(cc));
            }
        }
    }
    lemma_resolve_clean(style, pc, cc);
    let t = resolve(pc, cc);
    lemma_round_trip(style, t);
    lemma_clean_path_kept(style, assemble(style, t), cwd);
}

/// Resolving a path a second time changes nothing, as long as the working
/// directory has no `.` or `..` component of its own. For Windows paths
/// this is shown where neither the path nor the working directory has a
/// name that is a drive designator followed by `.` or `..` (such as `C:..`)
/// or starts with a verbatim UNC prefix that stops before its share.
pub proof fn lemma_resolved_idempotent(style: Style, p: Seq<char>, cwd: Seq<char>)
    requires
        !has_dots(components(style, cwd)),
        style == Style::Windows ==> {
            &&& !open_verbatim_unc(p)
            &&& !open_verbatim_unc(cwd)
            &&& no_drive_dots(style, components(style, p))
            &&& no_drive_dots(style, components(style, cwd))
        },
    ensures
        resolved(style, resolved(style, p, cwd), cwd) == resolved(style, p, cwd),
{
    if has_dot_segment(style, p) {
        lemma_dedot_idempotent(style, p, cwd);
    }
}

/// `..` alone resolves to text that reads back as exactly the parent of
/// the working directory's components (the root, when the working
/// directory is the root), as long as the working directory has no `.` or
/// `..` component. For Windows paths this is shown where the working
/// directory has no name such as `C:..` and does not start with a verbatim
/// UNC prefix that stops before its share.
pub proof fn lemma_parent_read_back(style: Style, cwd: Seq<char>)
    requires
        !has_dots(components(style, cwd)),
        style == Style::Windows ==> !open_verbatim_unc(cwd) && no_drive_dots(
            style,
            components(style, cwd),
        ),
    ensures
        components(style, resolved(style, seq!['.', '.'], cwd)) == parent_of(
            components(style, cwd),
        ),
{
    let c = components(style, cwd);
    lemma_parent_of_cwd(style, cwd);
    let s = seq!['.', '.'];
    assert(!crate::prefix::is_win_sep(s[0]));
    assert(prefix_of(s).0 == 0);
    assert(!style.is_sep(s[0]) && !style.is_sep(s[1]));
    assert(s.subrange(0, 2) =~= seq!['.', '.']);
    assert(dots_from(style, s, 0, 1) == dots_from(style, s, 0, 2));
    assert(dots_from(style, s, 0, 0) == dots_from(style, s, 0, 1));
    assert(has_dot_segment(style, s));
    lemma_components_read(style, cwd);
    assert(clean(style, c)) by {
        assert forall|i: int| 0 <= i < c.len() implies is_lead(style, c, i) || good_name(
            style,
            #[trigger] c[i],
        ) by {
            if is_dot(c[i]) {
                assert(has_dots(c));
            }
        }
    }
    lemma_parent_clean(style, c);
    lemma_reader_front(style, cwd);
    let t = parent_of(c);
    if t.len() > 0 {
        assert(t[0] == c[0]);
    }
    if t.len() > 1 {
        assert(t[1] == c[1]);
    }
    lemma_read_back(style, t);
}

/// A path that starts with a name resolves to text that reads back as the
/// fold of its own components from nothing: names only, with no root,
/// prefix, `.` or `..`, so it never climbs above where it starts. For
/// Windows paths this is shown where no name of the path begins with a
/// drive designator.
pub proof fn lemma_relative_read_back(style: Style, p: Seq<char>, cwd: Seq<char>)
    requires
        components(style, p).len() > 0,
        components(style, p)[0].kind is Normal,
        style == Style::Windows ==> forall|i: int|
            0 <= i < components(style, p).len() && (#[trigger] components(style, p)[i]).kind is Normal
                ==> !drive_like(components(style, p)[i].text),
    ensures
        components(style, resolved(style, p, cwd)) == fold(Seq::empty(), components(style, p)),
        forall|i: int|
            0 <= i < fold(Seq::empty(), components(style, p)).len() ==> (#[trigger] fold(
                Seq::empty(),
                components(style, p),
            )[i]).kind is Normal,
{
    let pc = components(style, p);
    let cc = components(style, cwd);
    lemma_prefix_bounds(p);
    if style == Style::Windows {
        assert(prefix_of(p).0 == 0) by {
            if prefix_of(p).0 > 0 {
                assert(pc[0] == prefix_comps(style, p)[0]);
            }
        }
        if p.len() >= 8 {
            lemma_next_sep_bounds(p, 8, true);
        }
        assert(!open_verbatim_unc(p));
    }
    lemma_components_read(style, p);
    assert(anchor(pc, cc) =~= Seq::<CompView>::empty());
    assert(pc.skip(anchor_len(pc)) =~= pc);
    let t = fold(Seq::empty(), pc);
    assert(dedot_comps(style, p, cwd) == t);
    lemma_fold_from_empty(pc);
    assert forall|i: int| 0 <= i < t.len() implies good_name(style, #[trigger] t[i]) && (style
        == Style::Windows ==> !drive_like(t[i].text)) by {
        let j = choose|j: int| 0 <= j < pc.len() && t[i] == pc[j] && !is_dot(pc[j]);
        assert(is_lead(style, pc, j) || good_name(style, pc[j]) || is_dot(pc[j]));
        if j == 1 {
            assert(pc[0].kind is Normal);
        }
    }
    assert(clean(style, t));
    assert(no_drive_dots(style, t));
    if has_dot_segment(style, p) {
        if t.len() > 0 {
            assert(good_name(style, t[0]));
        }
        lemma_read_back(style, t);
    } else {
        lemma_no_dot_segment(style, p);
        assert forall|i: int| 0 <= i < pc.len() implies !is_dot(#[trigger] pc[i]) by {
            if is_dot(pc[i]) {
                assert(has_dots(pc));
            }
        }
        lemma_fold_plain(Seq::empty(), pc);
        assert(Seq::<CompView>::empty() + pc =~= pc);
    }
}

} // verus!
