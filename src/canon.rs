use vstd::prelude::*;

use crate::model::{
    anchor, anchor_len, assemble, comp_text, fold, glue, has_dots, lemma_assemble_prefix, parent_of,
    piece, resolve, without_prefix,
};
use crate::prefix::{
    is_drive_letter, is_prefix_sep, is_win_sep, lemma_next_sep_bounds, lemma_prefix_bounds,
    lemma_prefix_stable, next_sep, open_verbatim_unc, prefix_of,
};
use crate::style::{cur_comp, is_dot, root_comp, CompView, Kind, Style};
use crate::tokens::{
    body_from, components, dots_from, has_dot_segment, prefix_comps, prefix_len, seg_comp,
};

verus! {

/// A name as the reader produces it: not empty, free of separators, and
/// neither `.` nor `..`.
pub open spec fn good_name(style: Style, c: CompView) -> bool {
    &&& c.kind is Normal
    &&& c.text.len() > 0
    &&& c.text != seq!['.']
    &&& c.text != seq!['.', '.']
    &&& forall|k: int| 0 <= k < c.text.len() ==> !style.is_sep(#[trigger] c.text[k])
}

/// A drive prefix such as `C:`.
pub open spec fn is_drive(c: CompView) -> bool {
    &&& c.kind == (Kind::Prefix { rooted: false })
    &&& c.text.len() == 2
    &&& is_drive_letter(c.text[0])
    &&& c.text[1] == ':'
}

/// A share prefix (such as `\\server\share`) that reads the same when
/// nothing, or a `\` and more text, follows it.
pub open spec fn is_share(c: CompView) -> bool {
    &&& c.kind == (Kind::Prefix { rooted: true })
    &&& forall|x: Seq<char>|
        (x.len() == 0 || x[0] == '\\') ==> #[trigger] prefix_of(c.text + x) == (
            c.text.len() as int,
            true,
        )
}

/// Whether `ts` starts with a drive or a share prefix (in Windows paths).
pub open spec fn has_lead_prefix(style: Style, ts: Seq<CompView>) -> bool {
    style == Style::Windows && ts.len() > 0 && (is_drive(ts[0]) || is_share(ts[0]))
}

/// Whether component `i` of `ts` fixes where the path starts: a prefix at
/// the front (in Windows paths), or a root at the front or right after
/// that prefix.
pub open spec fn is_lead(style: Style, ts: Seq<CompView>, i: int) -> bool {
    (i == 0 && has_lead_prefix(style, ts)) || (ts[i] == root_comp() && (i == 0 || (i == 1
        && has_lead_prefix(style, ts))))
}

/// Components in resolved form: the leading drive and root, then names.
pub open spec fn clean(style: Style, ts: Seq<CompView>) -> bool {
    forall|i: int| 0 <= i < ts.len() ==> is_lead(style, ts, i) || good_name(style, #[trigger] ts[i])
}

/// Components as the reader produces them when there is no share prefix:
/// like the resolved form, with `.` and `..` allowed too.
pub open spec fn read_shape(style: Style, ts: Seq<CompView>) -> bool {
    forall|i: int|
        0 <= i < ts.len() ==> is_lead(style, ts, i) || good_name(style, #[trigger] ts[i]) || is_dot(
            ts[i],
        )
}

/// Whether a text begins with a drive designator such as `C:`.
pub open spec fn drive_like(t: Seq<char>) -> bool {
    t.len() >= 2 && is_drive_letter(t[0]) && t[1] == ':'
}

/// Whether a text is a drive designator followed by `.` or `..`, such as
/// `C:..`: at the front of a Windows path it reads as a drive and a dot.
pub open spec fn drive_dot(t: Seq<char>) -> bool {
    drive_like(t) && (t.subrange(2, t.len() as int) == seq!['.'] || t.subrange(2, t.len() as int)
        == seq!['.', '.'])
}

/// Whether, in Windows paths, no name among the components is a drive
/// designator followed by `.` or `..`.
pub open spec fn no_drive_dots(style: Style, ts: Seq<CompView>) -> bool {
    style == Style::Windows ==> forall|i: int|
        0 <= i < ts.len() && (#[trigger] ts[i]).kind is Normal ==> !drive_dot(ts[i].text)
}

proof fn lemma_seg_shape(style: Style, s: Seq<char>, start: int, end: int)
    requires
        0 <= start <= end <= s.len(),
        forall|k: int| start <= k < end ==> !style.is_sep(#[trigger] s[k]),
    ensures
        forall|j: int|
            0 <= j < seg_comp(s.subrange(start, end)).len() ==> good_name(
                style,
                #[trigger] seg_comp(s.subrange(start, end))[j],
            ) || is_dot(seg_comp(s.subrange(start, end))[j]),
{
    let seg = s.subrange(start, end);
    assert forall|k: int| 0 <= k < seg.len() implies !style.is_sep(#[trigger] seg[k]) by {
        assert(seg[k] == s[start + k]);
    }
}

proof fn lemma_body_shape(style: Style, s: Seq<char>, start: int, i: int)
    requires
        0 <= start <= i <= s.len(),
        forall|k: int| start <= k < i ==> !style.is_sep(#[trigger] s[k]),
    ensures
        forall|j: int|
            0 <= j < body_from(style, s, start, i).len() ==> good_name(
                style,
                #[trigger] body_from(style, s, start, i)[j],
            ) || is_dot(body_from(style, s, start, i)[j]),
    decreases s.len() - i,
{
    if i >= s.len() {
        lemma_seg_shape(style, s, start, s.len() as int);
        assert(body_from(style, s, start, i) == seg_comp(s.subrange(start, s.len() as int)));
    } else if style.is_sep(s[i]) {
        lemma_seg_shape(style, s, start, i);
        assert(body_from(style, s, start, i) == seg_comp(s.subrange(start, i)) + body_from(
            style,
            s,
            i + 1,
            i + 1,
        ));
        lemma_body_shape(style, s, i + 1, i + 1);
        let a = seg_comp(s.subrange(start, i));
        let b = body_from(style, s, i + 1, i + 1);
        assert forall|j: int| 0 <= j < (a + b).len() implies good_name(style, #[trigger] (a + b)[j])
            || is_dot((a + b)[j]) by {
            if j < a.len() {
                assert((a + b)[j] == a[j]);
            } else {
                assert((a + b)[j] == b[j - a.len()]);
            }
        }
    } else {
        lemma_body_shape(style, s, start, i + 1);
        assert(body_from(style, s, start, i) == body_from(style, s, start, i + 1));
    }
}

/// What the reader produces has the read shape, unless the text starts
/// with a verbatim UNC prefix that stops before its share.
pub proof fn lemma_components_read(style: Style, s: Seq<char>)
    requires
        style == Style::Windows ==> !open_verbatim_unc(s),
    ensures
        read_shape(style, components(style, s)),
{
    lemma_prefix_bounds(s);
    let k = prefix_len(style, s);
    let pre = prefix_comps(style, s);
    let cs = components(style, s);
    if k > 0 {
        assert(style == Style::Windows);
        if prefix_of(s).1 {
            assert(pre[0].text =~= s.take(k));
            assert forall|x: Seq<char>| (x.len() == 0 || x[0] == '\\') implies #[trigger] prefix_of(
                pre[0].text + x,
            ) == (pre[0].text.len() as int, true) by {
                lemma_prefix_stable(s, x);
            }
            assert(is_share(pre[0]));
        } else {
            assert(is_drive(pre[0]));
        }
    }
    let (h, b) = if k < s.len() && style.is_sep(s[k]) {
        (pre.push(root_comp()), body_from(style, s, k + 1, k + 1))
    } else if k < s.len() && s[k] == '.' && (k + 1 == s.len() || style.is_sep(s[k + 1])) {
        (pre.push(cur_comp()), body_from(style, s, k + 1, k + 1))
    } else {
        (pre, body_from(style, s, k, k))
    };
    assert(cs == h + b);
    if k < s.len() && (style.is_sep(s[k]) || (s[k] == '.' && (k + 1 == s.len() || style.is_sep(
        s[k + 1],
    )))) {
        lemma_body_shape(style, s, k + 1, k + 1);
    } else {
        lemma_body_shape(style, s, k, k);
    }
    assert forall|i: int| 0 <= i < cs.len() implies is_lead(style, cs, i) || good_name(
        style,
        #[trigger] cs[i],
    ) || is_dot(cs[i]) by {
        if k > 0 {
            assert(cs[0] == pre[0]);
        }
        if i >= h.len() {
            assert(cs[i] == b[i - h.len()]);
        }
    }
}

/// The parent of clean components is clean.
pub proof fn lemma_parent_clean(style: Style, cs: Seq<CompView>)
    requires
        clean(style, cs),
        no_drive_dots(style, cs),
    ensures
        clean(style, parent_of(cs)),
        no_drive_dots(style, parent_of(cs)),
{
    let g = parent_of(cs);
    if g.len() > 0 {
        assert(g[0] == cs[0]);
    }
    assert forall|i: int| 0 <= i < g.len() implies is_lead(style, g, i) || good_name(
        style,
        #[trigger] g[i],
    ) by {
        assert(g[i] == cs[i]);
        assert(is_lead(style, cs, i) || good_name(style, cs[i]));
    }
    if style == Style::Windows {
        assert forall|i: int|
            0 <= i < g.len() && (#[trigger] g[i]).kind is Normal implies !drive_dot(
                g[i].text,
            ) by {
            assert(g[i] == cs[i]);
        }
    }
}

/// A prefix followed by clean components, less their own prefix, is clean.
proof fn lemma_drive_join(style: Style, d: CompView, cs: Seq<CompView>)
    requires
        style == Style::Windows,
        is_drive(d) || is_share(d),
        clean(style, cs),
        no_drive_dots(style, cs),
    ensures
        clean(style, seq![d] + without_prefix(cs)),
        no_drive_dots(style, seq![d] + without_prefix(cs)),
{
    let w = without_prefix(cs);
    let t = seq![d] + w;
    let off: int = if cs.len() > 0 && cs[0].kind is Prefix {
        1
    } else {
        0
    };
    assert(w =~= cs.skip(off));
    if cs.len() > 0 {
        assert(is_lead(style, cs, 0) || good_name(style, cs[0]));
    }
    assert forall|i: int| 0 <= i < t.len() implies is_lead(style, t, i) || good_name(
        style,
        #[trigger] t[i],
    ) by {
        assert(t[0] == d);
        if i > 0 {
            assert(t[i] == cs[i - 1 + off]);
            assert(is_lead(style, cs, i - 1 + off) || good_name(style, cs[i - 1 + off]));
        }
    }
    assert forall|i: int|
        0 <= i < t.len() && (#[trigger] t[i]).kind is Normal implies !drive_dot(
            t[i].text,
        ) by {
        if i > 0 {
            assert(t[i] == cs[i - 1 + off]);
        }
    }
}

pub proof fn lemma_fold_clean(style: Style, ts: Seq<CompView>, rest: Seq<CompView>)
    requires
        clean(style, ts),
        no_drive_dots(style, ts),
        forall|i: int|
            0 <= i < rest.len() ==> good_name(style, #[trigger] rest[i]) || is_dot(rest[i]),
        no_drive_dots(style, rest),
    ensures
        clean(style, fold(ts, rest)),
        no_drive_dots(style, fold(ts, rest)),
    decreases rest.len(),
{
    if rest.len() > 0 {
        let init = rest.drop_last();
        assert(no_drive_dots(style, init)) by {
            if style == Style::Windows {
                assert forall|i: int|
                    0 <= i < init.len() && (#[trigger] init[i]).kind is Normal implies !drive_dot(
                        init[i].text,
                    ) by {
                    assert(init[i] == rest[i]);
                }
            }
        }
        lemma_fold_clean(style, ts, init);
        let f = fold(ts, init);
        let c = rest.last();
        assert(good_name(style, rest[rest.len() - 1]) || is_dot(rest[rest.len() - 1]));
        assert(style == Style::Windows && c.kind is Normal ==> !drive_dot(c.text)) by {
            if style == Style::Windows && c.kind is Normal {
                assert(!drive_dot(rest[rest.len() - 1].text));
            }
        }
        if c.kind is ParentDir {
            lemma_parent_clean(style, f);
        } else if !(c.kind is CurDir) {
            let g = f.push(c);
            if f.len() > 0 {
                assert(g[0] == f[0]);
            }
            assert forall|i: int| 0 <= i < g.len() implies is_lead(style, g, i) || good_name(
                style,
                #[trigger] g[i],
            ) by {
                if i < f.len() {
                    assert(g[i] == f[i]);
                    assert(is_lead(style, f, i) || good_name(style, f[i]));
                }
            }
            if style == Style::Windows {
                assert forall|i: int|
                    0 <= i < g.len() && (#[trigger] g[i]).kind is Normal implies !drive_dot(
                        g[i].text,
                    ) by {
                    if i < f.len() {
                        assert(g[i] == f[i]);
                    }
                }
            }
        }
    }
}

/// Resolving read components against clean ones gives clean ones.
pub proof fn lemma_resolve_clean(style: Style, p: Seq<CompView>, cwd: Seq<CompView>)
    requires
        read_shape(style, p),
        clean(style, cwd),
        no_drive_dots(style, p),
        no_drive_dots(style, cwd),
    ensures
        clean(style, resolve(p, cwd)),
        no_drive_dots(style, resolve(p, cwd)),
{
    let a = anchor(p, cwd);
    let n = anchor_len(p);
    if p.len() > 0 {
        assert(is_lead(style, p, 0) || good_name(style, p[0]) || is_dot(p[0]));
        if p.len() > 1 {
            assert(is_lead(style, p, 1) || good_name(style, p[1]) || is_dot(p[1]));
        }
    }
    assert(clean(style, a) && no_drive_dots(style, a)) by {
        if p.len() > 0 {
            if p[0].kind is Prefix {
                assert(is_drive(p[0]) || is_share(p[0]));
                if p.len() > 1 && p[1].kind is Root {
                    assert(a =~= seq![p[0], p[1]]);
                    assert(a[1] == root_comp());
                } else if p.len() > 1 && p[1].kind is CurDir {
                    lemma_drive_join(style, p[0], cwd);
                } else if p.len() > 1 && p[1].kind is ParentDir {
                    lemma_parent_clean(style, cwd);
                    lemma_drive_join(style, p[0], parent_of(cwd));
                } else {
                    assert(a =~= seq![p[0]]);
                }
            } else if p[0].kind is ParentDir {
                lemma_parent_clean(style, cwd);
            } else if p[0].kind is Root {
                assert(a =~= seq![p[0]]);
            }
        }
    }
    let rest = p.skip(n);
    assert forall|i: int| 0 <= i < rest.len() implies good_name(style, #[trigger] rest[i])
        || is_dot(rest[i]) by {
        assert(rest[i] == p[i + n]);
        assert(is_lead(style, p, i + n) || good_name(style, p[i + n]) || is_dot(p[i + n]));
    }
    if style == Style::Windows {
        assert forall|i: int|
            0 <= i < rest.len() && (#[trigger] rest[i]).kind is Normal implies !drive_dot(
                rest[i].text,
            ) by {
            assert(rest[i] == p[i + n]);
        }
    }
    lemma_fold_clean(style, a, rest);
}

/// Reading scans over characters that are not separators.
proof fn lemma_scan(style: Style, s: Seq<char>, start: int, i: int, j: int)
    requires
        0 <= start <= i <= j <= s.len(),
        forall|k: int| i <= k < j ==> !style.is_sep(#[trigger] s[k]),
    ensures
        body_from(style, s, start, i) == body_from(style, s, start, j),
    decreases j - i,
{
    if i < j {
        lemma_scan(style, s, start, i + 1, j);
    }
}

/// Reading splits at a separator.
proof fn lemma_split(style: Style, s: Seq<char>, start: int, i: int, j: int)
    requires
        0 <= start <= i <= j < s.len(),
        style.is_sep(s[j]),
    ensures
        body_from(style, s, start, i) == body_from(style, s.take(j), start, i) + body_from(
            style,
            s,
            j + 1,
            j + 1,
        ),
    decreases j - i,
{
    let t = s.take(j);
    if i == j {
        assert(t.subrange(start, t.len() as int) =~= s.subrange(start, j));
    } else {
        assert(t[i] == s[i]);
        if style.is_sep(s[i]) {
            lemma_split(style, s, i + 1, i + 1, j);
            assert(t.subrange(start, i) =~= s.subrange(start, i));
            assert(seg_comp(s.subrange(start, i)) + (body_from(style, t, i + 1, i + 1) + body_from(
                style,
                s,
                j + 1,
                j + 1,
            )) =~= (seg_comp(s.subrange(start, i)) + body_from(style, t, i + 1, i + 1))
                + body_from(style, s, j + 1, j + 1));
        } else {
            lemma_split(style, s, start, i + 1, j);
        }
    }
}

pub open spec fn all_good(style: Style, ns: Seq<CompView>) -> bool {
    forall|i: int| 0 <= i < ns.len() ==> good_name(style, #[trigger] ns[i])
}

/// Names joined by separators.
proof fn lemma_assemble_names_push(style: Style, ns: Seq<CompView>)
    requires
        all_good(style, ns),
        ns.len() > 0,
    ensures
        ns.len() == 1 ==> assemble(style, ns) == ns[0].text,
        ns.len() > 1 ==> assemble(style, ns) == assemble(style, ns.drop_last()) + seq![style.sep()]
            + ns.last().text,
{
    assert(good_name(style, ns[ns.len() - 1]));
    if ns.len() == 1 {
        assert(assemble(style, ns.drop_last()) == Seq::<char>::empty());
        assert(assemble(style, ns) =~= ns[0].text);
    } else {
        assert(good_name(style, ns[ns.len() - 2]));
    }
}

/// Reading names joined by separators gives the names back.
proof fn lemma_body_names(style: Style, x: Seq<char>, ns: Seq<CompView>)
    requires
        all_good(style, ns),
    ensures
        body_from(style, x + assemble(style, ns), x.len() as int, x.len() as int) == ns,
    decreases ns.len(),
{
    let s = x + assemble(style, ns);
    let b = x.len() as int;
    if ns.len() == 0 {
        assert(s =~= x);
        assert(s.subrange(b, b) =~= Seq::<char>::empty());
        assert(ns =~= Seq::<CompView>::empty());
    } else {
        lemma_assemble_names_push(style, ns);
        let n = ns.last();
        assert(good_name(style, ns[ns.len() - 1]));
        if ns.len() == 1 {
            assert(s =~= x + n.text);
            assert forall|k: int| b <= k < s.len() implies !style.is_sep(#[trigger] s[k]) by {
                assert(s[k] == n.text[k - b]);
            }
            lemma_scan(style, s, b, b, s.len() as int);
            assert(s.subrange(b, s.len() as int) =~= n.text);
            assert(ns =~= seq![n]);
        } else {
            let init = ns.drop_last();
            assert(all_good(style, init)) by {
                assert forall|i: int| 0 <= i < init.len() implies good_name(
                    style,
                    #[trigger] init[i],
                ) by {
                    assert(init[i] == ns[i]);
                }
            }
            let a = assemble(style, init);
            let j = b + a.len();
            assert(s =~= (x + a) + (seq![style.sep()] + n.text));
            assert(s[j] == style.sep());
            assert(style.is_sep(style.sep()));
            lemma_split(style, s, b, b, j);
            assert(s.take(j) =~= x + a);
            lemma_body_names(style, x, init);
            let x2 = s.take(j + 1);
            assert(all_good(style, seq![n]));
            lemma_assemble_names_push(style, seq![n]);
            assert(s =~= x2 + assemble(style, seq![n]));
            lemma_body_names(style, x2, seq![n]);
            assert(init + seq![n] =~= ns);
        }
    }
}

/// A component before others spells its own text, what stands between it
/// and the next one, and their text.
proof fn lemma_assemble_cons(style: Style, h: CompView, r: Seq<CompView>)
    ensures
        assemble(style, seq![h] + r) == comp_text(style, h) + (if r.len() > 0 {
            glue(style, h, r[0])
        } else {
            Seq::empty()
        }) + assemble(style, r),
    decreases r.len(),
{
    let t = seq![h] + r;
    if r.len() == 0 {
        assert(t =~= seq![h]);
        assert(t.drop_last() =~= Seq::<CompView>::empty());
        assert(assemble(style, t.drop_last()) == Seq::<char>::empty());
        assert(assemble(style, r) == Seq::<char>::empty());
        assert(piece(style, t, 0) == comp_text(style, h));
        assert(assemble(style, t) =~= comp_text(style, h) + Seq::<char>::empty() + assemble(
            style,
            r,
        ));
    } else if r.len() == 1 {
        assert(t.drop_last() =~= seq![h]);
        lemma_assemble_cons(style, h, Seq::empty());
        assert(seq![h] + Seq::<CompView>::empty() =~= seq![h]);
        assert(r.drop_last() =~= Seq::<CompView>::empty());
        assert(assemble(style, seq![h]) == comp_text(style, h));
        assert(piece(style, t, 1) == glue(style, h, r[0]) + comp_text(style, r[0]));
        assert(assemble(style, r) == Seq::<char>::empty() + piece(style, r, 0));
        assert(assemble(style, r) =~= comp_text(style, r[0]));
        assert(assemble(style, t) =~= comp_text(style, h) + glue(style, h, r[0]) + assemble(
            style,
            r,
        ));
    } else {
        lemma_assemble_cons(style, h, r.drop_last());
        assert(t.drop_last() =~= seq![h] + r.drop_last());
        assert(piece(style, t, t.len() - 1) == piece(style, r, r.len() - 1));
        assert(assemble(style, t) =~= comp_text(style, h) + glue(style, h, r[0]) + assemble(
            style,
            r,
        ));
    }
}

/// The first name of names joined by separators stands at the front, with
/// a separator after it when another name follows.
proof fn lemma_names_front(style: Style, ns: Seq<CompView>)
    requires
        all_good(style, ns),
        ns.len() > 0,
    ensures
        assemble(style, ns).len() >= ns[0].text.len(),
        assemble(style, ns).take(ns[0].text.len() as int) == ns[0].text,
        ns.len() == 1 ==> assemble(style, ns).len() == ns[0].text.len(),
        ns.len() > 1 ==> assemble(style, ns).len() > ns[0].text.len() && assemble(
            style,
            ns,
        )[ns[0].text.len() as int] == style.sep(),
{
    let n0 = ns[0];
    assert(good_name(style, n0));
    lemma_assemble_prefix(style, ns, 1);
    assert(ns.take(1) =~= seq![n0]);
    assert(all_good(style, seq![n0]));
    lemma_assemble_names_push(style, seq![n0]);
    lemma_assemble_names_push(style, ns);
    if ns.len() > 1 {
        lemma_assemble_prefix(style, ns, 2);
        let two = ns.take(2);
        assert(all_good(style, two)) by {
            assert forall|i: int| 0 <= i < two.len() implies good_name(
                style,
                #[trigger] two[i],
            ) by {
                assert(two[i] == ns[i]);
            }
        }
        lemma_assemble_names_push(style, two);
        assert(two.drop_last() =~= seq![n0]);
        let a2 = assemble(style, two);
        assert(a2[n0.text.len() as int] == style.sep());
        assert(assemble(style, ns)[n0.text.len() as int] == a2[n0.text.len() as int]);
    }
}

/// The text that clean components spell reads as components without `.`
/// or `..` that spell it again, when no name is a drive designator followed
/// by `.` or `..`.
pub proof fn lemma_round_trip(style: Style, ts: Seq<CompView>)
    requires
        clean(style, ts),
        no_drive_dots(style, ts),
    ensures
        !has_dots(components(style, assemble(style, ts))),
        assemble(style, components(style, assemble(style, ts))) == assemble(style, ts),
{
    let q = assemble(style, ts);
    if style == Style::Windows && ts.len() > 0 && is_share(ts[0]) {
        lemma_round_trip_share(ts);
    } else if style == Style::Windows && ts.len() > 0 && ts[0].kind is Normal && drive_like(
        ts[0].text,
    ) {
        lemma_round_trip_drive_name(ts);
    } else {
        lemma_round_trip_plain(style, ts);
        assert(!has_dots(ts)) by {
            if has_dots(ts) {
                let i = choose|i: int| 0 <= i < ts.len() && is_dot(#[trigger] ts[i]);
                assert(is_lead(style, ts, i) || good_name(style, ts[i]));
            }
        }
    }
}

/// Clean components that start with a share prefix read back from the
/// text they spell, with a root after the prefix when it had none.
proof fn lemma_round_trip_share(ts: Seq<CompView>)
    requires
        clean(Style::Windows, ts),
        ts.len() > 0,
        is_share(ts[0]),
    ensures
        ts.len() == 1 || ts[1] == root_comp() ==> components(
            Style::Windows,
            assemble(Style::Windows, ts),
        ) == ts,
        !has_dots(components(Style::Windows, assemble(Style::Windows, ts))),
        assemble(Style::Windows, components(Style::Windows, assemble(Style::Windows, ts)))
            == assemble(Style::Windows, ts),
{
    let style = Style::Windows;
    let q = assemble(style, ts);
    let sh = ts[0];
    let r = ts.skip(1);
    assert(ts =~= seq![sh] + r);
    lemma_assemble_cons(style, sh, r);
    assert(style.is_sep(style.sep()));
    let ns = if r.len() > 0 && r[0] == root_comp() {
        ts.skip(2)
    } else {
        r
    };
    assert(all_good(style, ns)) by {
        assert forall|i: int| 0 <= i < ns.len() implies good_name(style, #[trigger] ns[i]) by {
            let j = if r.len() > 0 && r[0] == root_comp() {
                i + 2
            } else {
                i + 1
            };
            assert(ns[i] == ts[j]);
            assert(is_lead(style, ts, j) || good_name(style, ts[j]));
        }
    }
    let x = if r.len() == 0 {
        Seq::<char>::empty()
    } else {
        seq![style.sep()] + assemble(style, ns)
    };
    if r.len() > 0 && r[0] == root_comp() {
        assert(r =~= seq![root_comp()] + ns);
        lemma_assemble_cons(style, root_comp(), ns);
        assert(assemble(style, r) =~= seq![style.sep()] + assemble(style, ns));
    } else if r.len() > 0 {
        assert(good_name(style, r[0]));
    }
    assert(q =~= sh.text + x);
    assert(prefix_of(sh.text + x) == (sh.text.len() as int, true));
    let k = sh.text.len() as int;
    assert(prefix_of(sh.text + Seq::<char>::empty()) == (k, true));
    assert(sh.text + Seq::<char>::empty() =~= sh.text);
    lemma_prefix_bounds(sh.text);
    assert(k > 0);
    assert(q.subrange(0, k) =~= sh.text);
    assert(prefix_len(style, q) == k);
    assert(sh == CompView { kind: Kind::Prefix { rooted: true }, text: sh.text });
    assert(prefix_comps(style, q) =~= seq![sh]);
    let cs = components(style, q);
    if r.len() == 0 {
        assert(q.subrange(k, k) =~= Seq::<char>::empty());
        assert(cs =~= seq![sh]);
        assert(cs =~= ts);
    } else {
        assert(q[k] == style.sep());
        let x2 = sh.text + seq![style.sep()];
        assert(q =~= x2 + assemble(style, ns));
        lemma_body_names(style, x2, ns);
        assert(cs =~= seq![sh, root_comp()] + ns);
        if r[0] == root_comp() {
            assert(cs =~= ts);
        }
        lemma_assemble_cons(style, sh, seq![root_comp()] + ns);
        lemma_assemble_cons(style, root_comp(), ns);
        assert(cs =~= seq![sh] + (seq![root_comp()] + ns));
        assert(assemble(style, seq![root_comp()] + ns) =~= seq![style.sep()] + assemble(style, ns));
        assert(assemble(style, cs) =~= q);
    }
    assert(!has_dots(cs)) by {
        if has_dots(cs) {
            let i = choose|i: int| 0 <= i < cs.len() && is_dot(#[trigger] cs[i]);
            if i >= 2 && r.len() > 0 {
                assert(cs[i] == ns[i - 2]);
                assert(good_name(style, ns[i - 2]));
            }
        }
    }
}

/// Clean Windows components that start with a name beginning with a drive
/// designator read back as a drive followed by the rest of that name.
proof fn lemma_round_trip_drive_name(ts: Seq<CompView>)
    requires
        clean(Style::Windows, ts),
        no_drive_dots(Style::Windows, ts),
        ts.len() > 0,
        ts[0].kind is Normal,
        drive_like(ts[0].text),
    ensures
        !has_dots(components(Style::Windows, assemble(Style::Windows, ts))),
        assemble(Style::Windows, components(Style::Windows, assemble(Style::Windows, ts)))
            == assemble(Style::Windows, ts),
{
    let style = Style::Windows;
    let q = assemble(style, ts);
    assert(style.is_sep(style.sep()));
    assert(all_good(style, ts)) by {
        assert forall|i: int| 0 <= i < ts.len() implies good_name(style, #[trigger] ts[i]) by {
            assert(is_lead(style, ts, i) || good_name(style, ts[i]));
        }
    }
    let n0 = ts[0];
    assert(good_name(style, n0));
    assert(!drive_dot(n0.text));
    let ns = ts.skip(1);
    assert(all_good(style, ns)) by {
        assert forall|i: int| 0 <= i < ns.len() implies good_name(style, #[trigger] ns[i]) by {
            assert(ns[i] == ts[i + 1]);
        }
    }
    assert(ts =~= seq![n0] + ns);
    lemma_assemble_cons(style, n0, ns);
    let g = if ns.len() > 0 {
        seq![style.sep()]
    } else {
        Seq::<char>::empty()
    };
    if ns.len() > 0 {
        assert(good_name(style, ns[0]));
    }
    assert(q == n0.text + g + assemble(style, ns));
    let m = n0.text.len() as int;
    let dtext = n0.text.subrange(0, 2);
    let d = CompView { kind: Kind::Prefix { rooted: false }, text: dtext };
    assert(q[0] == n0.text[0] && q[1] == n0.text[1]);
    assert(!crate::prefix::is_win_sep(q[0]));
    assert(prefix_of(q) == (2int, false));
    assert(q.subrange(0, 2) =~= dtext);
    assert(prefix_comps(style, q) =~= seq![d]);
    let cs = components(style, q);
    if m == 2 {
        assert(n0.text =~= dtext);
        if ns.len() == 0 {
            assert(q =~= dtext);
            assert(q.subrange(2, 2) =~= Seq::<char>::empty());
            assert(cs =~= seq![d]);
            assert(assemble(style, cs.drop_last()) == Seq::<char>::empty());
            assert(assemble(style, cs) =~= q);
        } else {
            assert(q[2] == style.sep());
            let x = dtext + seq![style.sep()];
            assert(q =~= x + assemble(style, ns));
            lemma_body_names(style, x, ns);
            assert(cs =~= seq![d].push(root_comp()) + ns);
            assert(cs =~= seq![d] + (seq![root_comp()] + ns));
            lemma_assemble_cons(style, d, seq![root_comp()] + ns);
            lemma_assemble_cons(style, root_comp(), ns);
            assert(assemble(style, cs) =~= q);
        }
        assert(!has_dots(cs)) by {
            if has_dots(cs) {
                let i = choose|i: int| 0 <= i < cs.len() && is_dot(#[trigger] cs[i]);
                if i >= 2 {
                    assert(cs[i] == ns[i - 2]);
                    assert(good_name(style, ns[i - 2]));
                }
            }
        }
    } else {
        let rest0 = n0.text.subrange(2, m);
        let r0 = CompView { kind: Kind::Normal, text: rest0 };
        assert(n0.text =~= dtext + rest0);
        assert(rest0 != seq!['.'] && rest0 != seq!['.', '.']);
        assert forall|k: int| 0 <= k < rest0.len() implies !style.is_sep(#[trigger] rest0[k]) by {
            assert(rest0[k] == n0.text[k + 2]);
        }
        assert(good_name(style, r0));
        let nn = seq![r0] + ns;
        assert(all_good(style, nn)) by {
            assert forall|i: int| 0 <= i < nn.len() implies good_name(
                style,
                #[trigger] nn[i],
            ) by {
                if i > 0 {
                    assert(nn[i] == ns[i - 1]);
                }
            }
        }
        lemma_assemble_cons(style, r0, ns);
        assert(q =~= dtext + assemble(style, nn));
        lemma_body_names(style, dtext, nn);
        assert(q[2] == n0.text[2]);
        assert(!style.is_sep(n0.text[2]));
        if m == 3 {
            assert(rest0 =~= seq![n0.text[2]]);
            assert(n0.text[2] != '.');
        } else {
            assert(q[3] == n0.text[3]);
            assert(!style.is_sep(n0.text[3]));
        }
        assert(cs =~= seq![d] + nn);
        lemma_assemble_cons(style, d, nn);
        assert(assemble(style, cs) =~= q);
        assert(!has_dots(cs)) by {
            if has_dots(cs) {
                let i = choose|i: int| 0 <= i < cs.len() && is_dot(#[trigger] cs[i]);
                if i >= 1 {
                    assert(cs[i] == nn[i - 1]);
                    assert(good_name(style, nn[i - 1]));
                }
            }
        }
    }
}

/// Clean components read back from the text they spell, unless they start
/// with a share prefix or, in a Windows path, with a name that begins with
/// a drive designator.
proof fn lemma_round_trip_plain(style: Style, ts: Seq<CompView>)
    requires
        clean(style, ts),
        !(style == Style::Windows && ts.len() > 0 && is_share(ts[0])),
        !(style == Style::Windows && ts.len() > 0 && ts[0].kind is Normal && drive_like(
            ts[0].text,
        )),
    ensures
        components(style, assemble(style, ts)) == ts,
{
    let q = assemble(style, ts);
    assert(style.is_sep(style.sep()));
    if ts.len() == 0 {
        assert(q == Seq::<char>::empty());
        assert(prefix_len(style, q) == 0);
        assert(q.subrange(0, 0) =~= Seq::<char>::empty());
        assert(components(style, q) =~= ts);
    } else if ts[0] == root_comp() {
        let ns = ts.skip(1);
        assert(all_good(style, ns)) by {
            assert forall|i: int| 0 <= i < ns.len() implies good_name(
                style,
                #[trigger] ns[i],
            ) by {
                assert(ns[i] == ts[i + 1]);
                assert(is_lead(style, ts, i + 1) || good_name(style, ts[i + 1]));
            }
        }
        assert(ts =~= seq![root_comp()] + ns);
        lemma_assemble_cons(style, root_comp(), ns);
        lemma_body_names(style, seq![style.sep()], ns);
        assert(q[0] == style.sep());
        if q.len() >= 2 {
            lemma_names_front(style, ns);
            assert(q[1] == assemble(style, ns)[0]);
            assert(assemble(style, ns)[0] == ns[0].text[0]);
            assert(good_name(style, ns[0]));
            assert(!style.is_sep(ns[0].text[0]));
        }
        assert(!is_drive_letter(q[0]));
        assert(prefix_len(style, q) == 0);
        assert(components(style, q) =~= Seq::<CompView>::empty().push(root_comp()) + ns);
    } else if style == Style::Windows && is_drive(ts[0]) {
        let d = ts[0];
        let r = ts.skip(1);
        assert(ts =~= seq![d] + r);
        lemma_assemble_cons(style, d, r);
        assert(q == d.text + assemble(style, r));
        assert(q[0] == d.text[0] && q[1] == d.text[1]);
        assert(!crate::prefix::is_win_sep(q[0]));
        assert(prefix_of(q) == (2int, false));
        assert(q.subrange(0, 2) =~= d.text);
        assert(prefix_comps(style, q) =~= seq![d]);
        if r.len() > 0 && r[0] == root_comp() {
            let ns = ts.skip(2);
            assert(all_good(style, ns)) by {
                assert forall|i: int| 0 <= i < ns.len() implies good_name(
                    style,
                    #[trigger] ns[i],
                ) by {
                    assert(ns[i] == ts[i + 2]);
                    assert(is_lead(style, ts, i + 2) || good_name(style, ts[i + 2]));
                }
            }
            assert(r =~= seq![root_comp()] + ns);
            lemma_assemble_cons(style, root_comp(), ns);
            let x = d.text + seq![style.sep()];
            assert(q =~= x + assemble(style, ns));
            lemma_body_names(style, x, ns);
            assert(q[2] == style.sep());
            assert(components(style, q) =~= seq![d].push(root_comp()) + ns);
        } else {
            assert(all_good(style, r)) by {
                assert forall|i: int| 0 <= i < r.len() implies good_name(
                    style,
                    #[trigger] r[i],
                ) by {
                    assert(r[i] == ts[i + 1]);
                    assert(is_lead(style, ts, i + 1) || good_name(style, ts[i + 1]));
                }
            }
            lemma_body_names(style, d.text, r);
            if r.len() > 0 {
                lemma_names_front(style, r);
                let n0 = r[0];
                assert(good_name(style, n0));
                assert(q[2] == n0.text[0]);
                assert(!style.is_sep(n0.text[0]));
                if n0.text.len() == 1 {
                    assert(n0.text =~= seq![n0.text[0]]);
                    assert(n0.text[0] != '.');
                } else {
                    assert(q[3] == n0.text[1]);
                    assert(!style.is_sep(n0.text[1]));
                }
            }
            assert(components(style, q) =~= seq![d] + r);
        }
    } else {
        assert(all_good(style, ts)) by {
            assert forall|i: int| 0 <= i < ts.len() implies good_name(
                style,
                #[trigger] ts[i],
            ) by {
                assert(is_lead(style, ts, i) || good_name(style, ts[i]));
            }
        }
        let n0 = ts[0];
        assert(good_name(style, n0));
        assert(style == Style::Windows ==> !drive_like(n0.text));
        lemma_names_front(style, ts);
        assert(q[0] == n0.text[0]);
        assert(!style.is_sep(n0.text[0]));
        if n0.text.len() == 1 {
            assert(n0.text =~= seq![n0.text[0]]);
            assert(n0.text[0] != '.');
        } else {
            assert(q[1] == n0.text[1]);
            assert(!style.is_sep(n0.text[1]));
        }
        assert(prefix_len(style, q) == 0);
        lemma_body_names(style, Seq::empty(), ts);
        assert(Seq::<char>::empty() + q =~= q);
        assert(components(style, q) =~= Seq::<CompView>::empty() + body_from(style, q, 0, 0));
    }
}

/// Clean components read back from the text they spell, unless a share
/// prefix is followed by something other than a root, or (in a Windows
/// path) they start with a name that begins with a drive designator.
pub proof fn lemma_read_back(style: Style, ts: Seq<CompView>)
    requires
        clean(style, ts),
        no_drive_dots(style, ts),
        style == Style::Windows && ts.len() > 0 && is_share(ts[0]) ==> ts.len() == 1 || ts[1]
            == root_comp(),
        !(style == Style::Windows && ts.len() > 0 && ts[0].kind is Normal && drive_like(
            ts[0].text,
        )),
    ensures
        components(style, assemble(style, ts)) == ts,
{
    if style == Style::Windows && ts.len() > 0 && is_share(ts[0]) {
        lemma_round_trip_share(ts);
    } else {
        lemma_round_trip_plain(style, ts);
    }
}

/// What the reader puts first: a share prefix is followed by a root or by
/// nothing, and a name at the front of a Windows path never begins with a
/// drive designator.
pub proof fn lemma_reader_front(style: Style, s: Seq<char>)
    ensures
        ({
            let cs = components(style, s);
            &&& style == Style::Windows && cs.len() > 0 && cs[0].kind == (Kind::Prefix {
                rooted: true,
            }) ==> cs.len() == 1 || cs[1] == root_comp()
            &&& style == Style::Windows && cs.len() > 0 && cs[0].kind is Normal ==> !drive_like(
                cs[0].text,
            )
        }),
{
    lemma_prefix_bounds(s);
    let cs = components(style, s);
    let k = prefix_len(style, s);
    let pre = prefix_comps(style, s);
    if k == 0 && cs.len() > 0 {
        if 0 < s.len() && style.is_sep(s[0]) {
            assert(cs[0] == root_comp());
        } else if 0 < s.len() && s[0] == '.' && (1 == s.len() || style.is_sep(s[1])) {
            assert(cs[0] == cur_comp());
        } else {
            lemma_body_shape(style, s, 0, 0);
            assert(cs =~= body_from(style, s, 0, 0));
            assert(good_name(style, cs[0]) || is_dot(cs[0]));
        }
        assert(!(cs[0].kind is Prefix));
    }
    if k > 0 {
        assert(cs[0] == pre[0]);
    }
    if style == Style::Windows && cs.len() > 0 && k > 0 && prefix_of(s).1 {
        if k == s.len() {
            assert(s.subrange(k, k) =~= Seq::<char>::empty());
            assert(body_from(style, s, k, k) =~= Seq::<CompView>::empty());
            assert(cs =~= pre);
        } else {
            assert(style.is_sep(s[k]));
            assert(cs[1] == root_comp());
        }
    }
    if style == Style::Windows && cs.len() > 0 && cs[0].kind is Normal {
        assert(k == 0) by {
            if k > 0 {
                assert(cs[0] == pre[0]);
            }
        }
        assert(!(0 < s.len() && style.is_sep(s[0]))) by {
            if 0 < s.len() && style.is_sep(s[0]) {
                assert(cs[0] == root_comp());
            }
        }
        assert(!(0 < s.len() && s[0] == '.' && (1 == s.len() || style.is_sep(s[1])))) by {
            if 0 < s.len() && s[0] == '.' && (1 == s.len() || style.is_sep(s[1])) {
                assert(cs[0] == cur_comp());
            }
        }
        assert(cs =~= body_from(style, s, 0, 0));
        lemma_next_sep_bounds(s, 0, false);
        let j = next_sep(s, 0, false);
        assert forall|m: int| 0 <= m < j implies !style.is_sep(#[trigger] s[m]) by {
            assert(!is_prefix_sep(s[m], false));
        }
        lemma_scan(style, s, 0, 0, j);
        let seg = s.subrange(0, j);
        if j < s.len() {
            assert(style.is_sep(s[j]));
            assert(body_from(style, s, 0, j) == seg_comp(seg) + body_from(style, s, j + 1, j + 1));
        } else {
            assert(body_from(style, s, 0, j) == seg_comp(s.subrange(0, s.len() as int)));
        }
        assert(seg.len() > 0);
        assert(seg != seq!['.']) by {
            if seg == seq!['.'] {
                assert(seg.len() == 1 && seg[0] == '.');
                assert(s[0] == seg[0]);
                assert(j == 1);
                if j < s.len() {
                    assert(is_prefix_sep(s[1], false));
                }
            }
        }
        assert(seg != seq!['.', '.']) by {
            if seg == seq!['.', '.'] {
                assert(seg.len() == 2);
                assert(seg_comp(seg) == seq![crate::style::parent_comp()]);
                assert(cs[0] == crate::style::parent_comp());
            }
        }
        assert(cs[0] == seg_comp(seg)[0]);
        assert(cs[0].text == seg);
        if drive_like(seg) {
            assert(s[0] == seg[0] && s[1] == seg[1]);
            assert(!is_win_sep(s[0]));
            assert(prefix_of(s).0 == 2);
        }
    }
}

proof fn lemma_has_dots_concat(a: Seq<CompView>, b: Seq<CompView>)
    ensures
        has_dots(a + b) ==> has_dots(a) || has_dots(b),
{
    if has_dots(a + b) {
        let i = choose|i: int| 0 <= i < (a + b).len() && is_dot(#[trigger] (a + b)[i]);
        if i < a.len() {
            assert((a + b)[i] == a[i]);
        } else {
            assert((a + b)[i] == b[i - a.len()]);
        }
    }
}

proof fn lemma_body_dots(style: Style, s: Seq<char>, start: int, i: int)
    requires
        0 <= start <= i <= s.len(),
    ensures
        has_dots(body_from(style, s, start, i)) ==> dots_from(style, s, start, i),
    decreases s.len() - i,
{
    if i >= s.len() {
        let seg = s.subrange(start, s.len() as int);
        if has_dots(seg_comp(seg)) {
            let j = choose|j: int| 0 <= j < seg_comp(seg).len() && is_dot(#[trigger] seg_comp(seg)[j]);
        }
    } else if style.is_sep(s[i]) {
        let seg = s.subrange(start, i);
        lemma_body_dots(style, s, i + 1, i + 1);
        lemma_has_dots_concat(seg_comp(seg), body_from(style, s, i + 1, i + 1));
        if has_dots(seg_comp(seg)) {
            let j = choose|j: int| 0 <= j < seg_comp(seg).len() && is_dot(#[trigger] seg_comp(seg)[j]);
        }
    } else {
        lemma_body_dots(style, s, start, i + 1);
    }
}

/// Text without a `.` or `..` segment reads as components without them.
pub proof fn lemma_no_dot_segment(style: Style, s: Seq<char>)
    requires
        !has_dot_segment(style, s),
    ensures
        !has_dots(components(style, s)),
{
    lemma_prefix_bounds(s);
    let k = prefix_len(style, s);
    let pre = prefix_comps(style, s);
    assert(!has_dots(pre)) by {
        if has_dots(pre) {
            let j = choose|j: int| 0 <= j < pre.len() && is_dot(#[trigger] pre[j]);
        }
    }
    if k < s.len() && style.is_sep(s[k]) {
        lemma_body_dots(style, s, k + 1, k + 1);
        let h = pre.push(root_comp());
        assert(!has_dots(h)) by {
            if has_dots(h) {
                let j = choose|j: int| 0 <= j < h.len() && is_dot(#[trigger] h[j]);
                if j < pre.len() {
                    assert(h[j] == pre[j]);
                }
            }
        }
        lemma_has_dots_concat(h, body_from(style, s, k + 1, k + 1));
    } else if k < s.len() && s[k] == '.' && (k + 1 == s.len() || style.is_sep(s[k + 1])) {
        assert(s.subrange(k, k + 1) =~= seq!['.']);
        assert(dots_from(style, s, k, k) == dots_from(style, s, k, k + 1));
    } else {
        lemma_body_dots(style, s, k, k);
        lemma_has_dots_concat(pre, body_from(style, s, k, k));
    }
}

/// What folding into nothing keeps are components of `rest` other than
/// `.` and `..`.
pub proof fn lemma_fold_from_empty(rest: Seq<CompView>)
    ensures
        forall|i: int|
            0 <= i < fold(Seq::empty(), rest).len() ==> exists|j: int|
                0 <= j < rest.len() && #[trigger] fold(Seq::empty(), rest)[i] == rest[j] && !is_dot(
                    rest[j],
                ),
    decreases rest.len(),
{
    if rest.len() > 0 {
        let init = rest.drop_last();
        lemma_fold_from_empty(init);
        let f = fold(Seq::empty(), init);
        let c = rest.last();
        let g = fold(Seq::empty(), rest);
        assert forall|i: int| 0 <= i < g.len() implies exists|j: int|
            0 <= j < rest.len() && #[trigger] g[i] == rest[j] && !is_dot(rest[j]) by {
            if i < f.len() {
                assert(g[i] == f[i]);
                let j = choose|j: int| 0 <= j < init.len() && f[i] == init[j] && !is_dot(init[j]);
                assert(init[j] == rest[j]);
            } else {
                assert(g[i] == c);
                assert(rest[rest.len() - 1] == c);
            }
        }
    }
}

} // verus!
