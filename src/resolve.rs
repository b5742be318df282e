use vstd::prelude::*;

use crate::model::{anchor, anchor_len, fold, parent_of, resolve, step, without_prefix};
use crate::style::{CompView, Kind};
use crate::tokens::{token_view, tokens_wf, views, Token};

verus! {

proof fn lemma_views_subrange(ts: Seq<Token>, i: int, j: int, p: Seq<char>, c: Seq<char>)
    requires
        0 <= i <= j <= ts.len(),
    ensures
        views(ts.subrange(i, j), p, c) == views(ts, p, c).subrange(i, j),
{
    assert(views(ts.subrange(i, j), p, c) =~= views(ts, p, c).subrange(i, j));
}

proof fn lemma_views_concat(a: Seq<Token>, b: Seq<Token>, p: Seq<char>, c: Seq<char>)
    ensures
        views(a + b, p, c) == views(a, p, c) + views(b, p, c),
{
    assert(views(a + b, p, c) =~= views(a, p, c) + views(b, p, c));
}

fn is_name_token(t: &Token) -> (r: bool)
    ensures
        r == (t.kind is CurDir || t.kind is ParentDir || t.kind is Normal),
{
    match t.kind {
        Kind::CurDir | Kind::ParentDir | Kind::Normal => true,
        _ => false,
    }
}

/// How many of the tokens `ts` make up their parent.
fn parent_len(ts: &Vec<Token>, Ghost(p): Ghost<Seq<char>>, Ghost(c): Ghost<Seq<char>>) -> (r: usize)
    ensures
        r <= ts.len(),
        views(ts@.take(r as int), p, c) == parent_of(views(ts@, p, c)),
{
    let n = ts.len();
    if n > 0 && is_name_token(&ts[n - 1]) {
        assert(views(ts@.take((n - 1) as int), p, c) =~= views(ts@, p, c).drop_last());
        n - 1
    } else {
        assert(ts@.take(n as int) =~= ts@);
        n
    }
}

/// Appends `src[from..to]` to `out`.
fn extend(out: &mut Vec<Token>, src: &Vec<Token>, from: usize, to: usize)
    requires
        from <= to <= src.len(),
    ensures
        final(out)@ == old(out)@ + src@.subrange(from as int, to as int),
{
    let mut i = from;
    while i < to
        invariant
            from <= i <= to <= src.len(),
            out@ == old(out)@ + src@.subrange(from as int, i as int),
        decreases to - i,
    {
        out.push(src[i]);
        assert(src@.subrange(from as int, (i + 1) as int) =~= src@.subrange(from as int, i as int).push(
            src@[i as int],
        ));
        i = i + 1;
    }
}

/// Resolves the path tokens `pt` (over the characters `pc`) against the
/// working directory tokens `ct` (over `cc`).
pub(crate) fn resolve_tokens(pt: &Vec<Token>, ct: &Vec<Token>, pc: &Vec<char>, cc: &Vec<char>) -> (r:
    Vec<Token>)
    requires
        tokens_wf(pt@, pc@, cc@),
        tokens_wf(ct@, pc@, cc@),
    ensures
        tokens_wf(r@, pc@, cc@),
        views(r@, pc@, cc@) == resolve(views(pt@, pc@, cc@), views(ct@, pc@, cc@)),
{
    let ghost p = pc@;
    let ghost c = cc@;
    let ghost pv = views(pt@, p, c);
    let ghost cv = views(ct@, p, c);
    let n = pt.len();
    let mut out: Vec<Token> = Vec::new();
    let mut start: usize = 0;
    if n > 0 {
        match pt[0].kind {
            Kind::Prefix { .. } => {
                out.push(pt[0]);
                assert(views(out@, p, c) =~= seq![pv[0]]);
                if n > 1 && pt[1].kind == Kind::Root {
                    out.push(pt[1]);
                    assert(views(out@, p, c) =~= pv.take(2));
                    start = 2;
                } else if n > 1 && pt[1].kind == Kind::CurDir {
                    let b: usize = if ct.len() > 0 && matches!(ct[0].kind, Kind::Prefix { .. }) {
                        1
                    } else {
                        0
                    };
                    let ghost before = out@;
                    extend(&mut out, ct, b, ct.len());
                    proof {
                        lemma_views_concat(before, ct@.subrange(b as int, ct.len() as int), p, c);
                        lemma_views_subrange(ct@, b as int, ct.len() as int, p, c);
                        assert(cv.subrange(b as int, cv.len() as int) =~= without_prefix(cv));
                    }
                    start = 2;
                } else if n > 1 && pt[1].kind == Kind::ParentDir {
                    let e = parent_len(ct, Ghost(p), Ghost(c));
                    let b: usize = if e > 0 && matches!(ct[0].kind, Kind::Prefix { .. }) {
                        1
                    } else {
                        0
                    };
                    let ghost before = out@;
                    extend(&mut out, ct, b, e);
                    proof {
                        lemma_views_concat(before, ct@.subrange(b as int, e as int), p, c);
                        lemma_views_subrange(ct@, b as int, e as int, p, c);
                        lemma_views_subrange(ct@, 0, e as int, p, c);
                        assert(ct@.take(e as int) =~= ct@.subrange(0, e as int));
                        let pa = parent_of(cv);
                        assert(pa =~= cv.subrange(0, e as int));
                        assert(cv.subrange(b as int, e as int) =~= without_prefix(pa));
                    }
                    start = 2;
                } else {
                    assert(pv.take(1) =~= seq![pv[0]]);
                    start = 1;
                }
            },
            Kind::Root => {
                out.push(pt[0]);
                assert(views(out@, p, c) =~= pv.take(1));
                start = 1;
            },
            Kind::CurDir => {
                extend(&mut out, ct, 0, ct.len());
                assert(out@ =~= ct@);
                start = 1;
            },
            Kind::ParentDir => {
                let e = parent_len(ct, Ghost(p), Ghost(c));
                extend(&mut out, ct, 0, e);
                assert(out@ =~= ct@.take(e as int));
                start = 1;
            },
            Kind::Normal => {},
        }
    }
    assert(views(out@, p, c) == anchor(pv, cv));
    assert(start == anchor_len(pv));
    assert(pv.subrange(start as int, start as int) =~= Seq::<CompView>::empty());
    let mut i = start;
    while i < n
        invariant
            start <= i <= n,
            n == pt.len(),
            p == pc@,
            c == cc@,
            pv == views(pt@, p, c),
            cv == views(ct@, p, c),
            tokens_wf(pt@, p, c),
            tokens_wf(ct@, p, c),
            tokens_wf(out@, p, c),
            start == anchor_len(pv),
            views(out@, p, c) == fold(anchor(pv, cv), pv.subrange(start as int, i as int)),
        decreases n - i,
    {
        let ghost before = views(out@, p, c);
        let t = pt[i];
        assert(token_view(t, p, c) == pv[i as int]);
        match t.kind {
            Kind::CurDir => {},
            Kind::ParentDir => {
                let len = out.len();
                if len > 0 && is_name_token(&out[len - 1]) {
                    out.pop();
                    assert(views(out@, p, c) =~= before.drop_last());
                }
            },
            _ => {
                out.push(t);
                assert(views(out@, p, c) =~= before.push(pv[i as int]));
            },
        }
        assert(views(out@, p, c) == step(before, pv[i as int]));
        assert(pv.subrange(start as int, (i + 1) as int).drop_last() =~= pv.subrange(
            start as int,
            i as int,
        ));
        i = i + 1;
    }
    assert(pv.subrange(start as int, n as int) =~= pv.skip(start as int));
    out
}

} // verus!
