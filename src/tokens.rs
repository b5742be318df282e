use vstd::prelude::*;

use crate::prefix::{lemma_prefix_bounds, prefix_of, read_prefix};
use crate::style::{cur_comp, parent_comp, root_comp, CompView, Kind, Style};

verus! {

/// The components that one segment between separators contributes: none
/// for an empty or `.` segment, a parent for `..`, else a normal name.
pub open spec fn seg_comp(seg: Seq<char>) -> Seq<CompView> {
    if seg.len() == 0 || seg == seq!['.'] {
        Seq::empty()
    } else if seg == seq!['.', '.'] {
        seq![parent_comp()]
    } else {
        seq![CompView { kind: Kind::Normal, text: seg }]
    }
}

/// The components of `s` from position `i` on, where the segment being
/// read began at `start`.
pub open spec fn body_from(style: Style, s: Seq<char>, start: int, i: int) -> Seq<CompView>
    decreases s.len() - i,
{
    if i >= s.len() {
        seg_comp(s.subrange(start, s.len() as int))
    } else if style.is_sep(s[i]) {
        seg_comp(s.subrange(start, i)) + body_from(style, s, i + 1, i + 1)
    } else {
        body_from(style, s, start, i + 1)
    }
}

/// The length of the prefix of `s` in `style`.
pub open spec fn prefix_len(style: Style, s: Seq<char>) -> int {
    if style == Style::Windows {
        prefix_of(s).0
    } else {
        0
    }
}

/// The prefix component of `s`, if it has one.
pub open spec fn prefix_comps(style: Style, s: Seq<char>) -> Seq<CompView> {
    let k = prefix_len(style, s);
    if k > 0 {
        seq![CompView { kind: Kind::Prefix { rooted: prefix_of(s).1 }, text: s.subrange(0, k) }]
    } else {
        Seq::empty()
    }
}

/// The components of the path text `s`: an optional prefix, then a root
/// when a separator follows it, or a `.` when the text after the prefix
/// begins with a `.` segment, then the remaining segments with empty and
/// `.` segments left out.
pub open spec fn components(style: Style, s: Seq<char>) -> Seq<CompView> {
    let k = prefix_len(style, s);
    if k < s.len() && style.is_sep(s[k]) {
        prefix_comps(style, s).push(root_comp()) + body_from(style, s, k + 1, k + 1)
    } else if k < s.len() && s[k] == '.' && (k + 1 == s.len() || style.is_sep(s[k + 1])) {
        prefix_comps(style, s).push(cur_comp()) + body_from(style, s, k + 1, k + 1)
    } else {
        prefix_comps(style, s) + body_from(style, s, k, k)
    }
}

/// Whether a segment between separators is `.` or `..`.
pub open spec fn is_dot_seg(seg: Seq<char>) -> bool {
    seg == seq!['.'] || seg == seq!['.', '.']
}

/// Whether a segment of `s` from position `i` on, where the segment being
/// read began at `start`, is `.` or `..`.
pub open spec fn dots_from(style: Style, s: Seq<char>, start: int, i: int) -> bool
    decreases s.len() - i,
{
    if i >= s.len() {
        is_dot_seg(s.subrange(start, s.len() as int))
    } else if style.is_sep(s[i]) {
        is_dot_seg(s.subrange(start, i)) || dots_from(style, s, i + 1, i + 1)
    } else {
        dots_from(style, s, start, i + 1)
    }
}

/// Whether the text `s`, after its prefix, has a `.` or `..` segment.
pub open spec fn has_dot_segment(style: Style, s: Seq<char>) -> bool {
    dots_from(style, s, prefix_len(style, s), prefix_len(style, s))
}

/// A component of the path or of the working directory, as a span of the
/// characters of its source.
#[derive(Clone, Copy)]
pub(crate) struct Token {
    pub(crate) kind: Kind,
    pub(crate) from_cwd: bool,
    pub(crate) start: usize,
    pub(crate) end: usize,
}

pub(crate) open spec fn token_src(t: Token, p: Seq<char>, c: Seq<char>) -> Seq<char> {
    if t.from_cwd {
        c
    } else {
        p
    }
}

pub(crate) open spec fn token_wf(t: Token, p: Seq<char>, c: Seq<char>) -> bool {
    t.start <= t.end <= token_src(t, p, c).len()
}

pub(crate) open spec fn token_view(t: Token, p: Seq<char>, c: Seq<char>) -> CompView {
    CompView {
        kind: t.kind,
        text: if t.kind is Prefix || t.kind is Normal {
            token_src(t, p, c).subrange(t.start as int, t.end as int)
        } else {
            Seq::empty()
        },
    }
}

pub(crate) open spec fn tokens_wf(ts: Seq<Token>, p: Seq<char>, c: Seq<char>) -> bool {
    forall|k: int| 0 <= k < ts.len() ==> token_wf(#[trigger] ts[k], p, c)
}

pub(crate) open spec fn views(ts: Seq<Token>, p: Seq<char>, c: Seq<char>) -> Seq<CompView> {
    ts.map_values(|t: Token| token_view(t, p, c))
}

pub(crate) proof fn lemma_views_push(ts: Seq<Token>, t: Token, p: Seq<char>, c: Seq<char>)
    ensures
        views(ts.push(t), p, c) == views(ts, p, c).push(token_view(t, p, c)),
{
    assert(views(ts.push(t), p, c) =~= views(ts, p, c).push(token_view(t, p, c)));
}

/// The characters of `s`, one by one.
pub(crate) fn chars_of(s: &str) -> (v: Vec<char>)
    ensures
        v@ == s@,
{
    let mut v: Vec<char> = Vec::new();
    for c in it: s.chars()
        invariant
            v@ == it.seq().subrange(0, it.index() as int),
    {
        v.push(c);
    }
    v
}

fn push_segment(out: &mut Vec<Token>, s: &Vec<char>, start: usize, end: usize, from_cwd: bool)
    requires
        start <= end <= s.len(),
        forall|k: int| 0 <= k < old(out).len() ==> (#[trigger] old(out)[k]).from_cwd == from_cwd,
        tokens_wf(old(out)@, s@, s@),
    ensures
        forall|k: int| 0 <= k < final(out).len() ==> (#[trigger] final(out)[k]).from_cwd == from_cwd,
        tokens_wf(final(out)@, s@, s@),
        views(final(out)@, s@, s@) == views(old(out)@, s@, s@) + seg_comp(
            s@.subrange(start as int, end as int),
        ),
{
    let ghost seg = s@.subrange(start as int, end as int);
    let len = end - start;
    if len == 0 || (len == 1 && s[start] == '.') {
        assert(seg.len() == 0 || seg =~= seq!['.']);
        assert(views(final(out)@, s@, s@) =~= views(old(out)@, s@, s@) + seg_comp(seg));
    } else if len == 2 && s[start] == '.' && s[start + 1] == '.' {
        assert(seg =~= seq!['.', '.']);
        let t = Token { kind: Kind::ParentDir, from_cwd, start, end };
        proof {
            lemma_views_push(out@, t, s@, s@);
        }
        out.push(t);
        assert(views(final(out)@, s@, s@) =~= views(old(out)@, s@, s@) + seg_comp(seg));
    } else {
        assert(seg.len() != 0);
        assert(seg != seq!['.']) by {
            if len == 1 {
                assert(seg[0] != '.');
            }
        }
        assert(seg != seq!['.', '.']) by {
            if len == 2 {
                assert(seg[0] != '.' || seg[1] != '.');
            }
        }
        let t = Token { kind: Kind::Normal, from_cwd, start, end };
        proof {
            lemma_views_push(out@, t, s@, s@);
        }
        out.push(t);
        assert(views(final(out)@, s@, s@) =~= views(old(out)@, s@, s@) + seg_comp(seg));
    }
}

/// Whether `s[start..end]` is `.` or `..`.
fn dot_segment(s: &Vec<char>, start: usize, end: usize) -> (r: bool)
    requires
        start <= end <= s.len(),
    ensures
        r == is_dot_seg(s@.subrange(start as int, end as int)),
{
    let ghost seg = s@.subrange(start as int, end as int);
    let len = end - start;
    if len == 1 && s[start] == '.' {
        assert(seg =~= seq!['.']);
        true
    } else if len == 2 && s[start] == '.' && s[start + 1] == '.' {
        assert(seg =~= seq!['.', '.']);
        true
    } else {
        assert(seg != seq!['.']) by {
            if seg == seq!['.'] {
                assert(seg.len() == 1 && seg[0] == '.');
            }
        }
        assert(seg != seq!['.', '.']) by {
            if seg == seq!['.', '.'] {
                assert(seg.len() == 2 && seg[0] == '.' && seg[1] == '.');
            }
        }
        false
    }
}

/// Whether the characters `s` have a `.` or `..` segment after their
/// prefix, decided without building anything.
pub(crate) fn find_dot_segment(style: Style, s: &Vec<char>) -> (r: bool)
    ensures
        r == has_dot_segment(style, s@),
{
    let n = s.len();
    let k = if style == Style::Windows {
        read_prefix(s).0
    } else {
        0
    };
    proof {
        lemma_prefix_bounds(s@);
    }
    let mut start = k;
    let mut i = k;
    while i < n
        invariant
            n == s.len(),
            start <= i <= n,
            has_dot_segment(style, s@) == dots_from(style, s@, start as int, i as int),
        decreases n - i,
    {
        if style.is_separator(s[i]) {
            if dot_segment(s, start, i) {
                return true;
            }
            start = i + 1;
        }
        i = i + 1;
    }
    dot_segment(s, start, n)
}

/// Splits the characters `s` into components, each marked as coming from
/// the working directory or not.
pub(crate) fn tokenize(style: Style, s: &Vec<char>, from_cwd: bool) -> (r: Vec<Token>)
    ensures
        forall|k: int| 0 <= k < r.len() ==> (#[trigger] r[k]).from_cwd == from_cwd,
        tokens_wf(r@, s@, s@),
        views(r@, s@, s@) == components(style, s@),
{
    let n = s.len();
    let (k, rooted) = if style == Style::Windows {
        read_prefix(s)
    } else {
        (0, false)
    };
    proof {
        lemma_prefix_bounds(s@);
    }
    let mut out: Vec<Token> = Vec::new();
    if k > 0 {
        let t = Token { kind: Kind::Prefix { rooted }, from_cwd, start: 0, end: k };
        out.push(t);
    }
    assert(views(out@, s@, s@) =~= prefix_comps(style, s@));
    let mut b = k;
    if k < n && style.is_separator(s[k]) {
        let t = Token { kind: Kind::Root, from_cwd, start: k, end: k + 1 };
        proof {
            lemma_views_push(out@, t, s@, s@);
        }
        out.push(t);
        b = k + 1;
    } else if k < n && s[k] == '.' && (k + 1 == n || style.is_separator(s[k + 1])) {
        let t = Token { kind: Kind::CurDir, from_cwd, start: k, end: k + 1 };
        proof {
            lemma_views_push(out@, t, s@, s@);
        }
        out.push(t);
        b = k + 1;
    }
    assert(views(out@, s@, s@) + body_from(style, s@, b as int, b as int) == components(style, s@));
    let mut start = b;
    let mut i = b;
    while i < n
        invariant
            n == s.len(),
            start <= i <= n,
            forall|k: int| 0 <= k < out.len() ==> (#[trigger] out[k]).from_cwd == from_cwd,
            tokens_wf(out@, s@, s@),
            views(out@, s@, s@) + body_from(style, s@, start as int, i as int) == components(
                style,
                s@,
            ),
        decreases n - i,
    {
        if style.is_separator(s[i]) {
            push_segment(&mut out, s, start, i, from_cwd);
            assert(views(out@, s@, s@) + body_from(style, s@, (i + 1) as int, (i + 1) as int)
                =~= components(style, s@));
            start = i + 1;
        }
        i = i + 1;
    }
    push_segment(&mut out, s, start, n, from_cwd);
    assert(views(out@, s@, s@) =~= components(style, s@));
    out
}

} // verus!
