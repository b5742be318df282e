use vstd::prelude::*;

verus! {

/// Either separator of a Windows path.
pub open spec fn is_win_sep(c: char) -> bool {
    c == '/' || c == '\\'
}

/// A separator inside a verbatim (`\\?\`) prefix, where only `\` counts.
pub open spec fn is_prefix_sep(c: char, verbatim: bool) -> bool {
    if verbatim {
        c == '\\'
    } else {
        is_win_sep(c)
    }
}

pub open spec fn is_drive_letter(c: char) -> bool {
    ('a' <= c && c <= 'z') || ('A' <= c && c <= 'Z')
}

/// The first position at or after `i` that holds a separator, or the length.
pub open spec fn next_sep(s: Seq<char>, i: int, verbatim: bool) -> int
    decreases s.len() - i,
{
    if i < 0 || i >= s.len() || is_prefix_sep(s[i], verbatim) {
        i
    } else {
        next_sep(s, i + 1, verbatim)
    }
}

/// The length of the Windows prefix that `s` starts with (0 when there is
/// none), and whether that prefix implies a root.
///
/// The prefixes are: `\\?\UNC\server\share`, `\\?\C:`, `\\?\name`,
/// `\\.\name`, `\\server\share` (both parts non-empty) and a drive `C:`.
/// Only the drive implies no root.
pub open spec fn prefix_of(s: Seq<char>) -> (int, bool) {
    if s.len() >= 2 && is_win_sep(s[0]) && is_win_sep(s[1]) {
        if s.len() >= 4 && s[0] == '\\' && s[1] == '\\' && s[2] == '?' && s[3] == '\\' {
            if s.len() >= 8 && s[4] == 'U' && s[5] == 'N' && s[6] == 'C' && is_win_sep(s[7]) {
                let a = next_sep(s, 8, true);
                if a < s.len() && next_sep(s, a + 1, true) > a + 1 {
                    (next_sep(s, a + 1, true), true)
                } else {
                    (a, true)
                }
            } else if s.len() >= 6 && is_drive_letter(s[4]) && s[5] == ':' && (s.len() == 6
                || s[6] == '\\') {
                (6, true)
            } else {
                (next_sep(s, 4, true), true)
            }
        } else if s.len() >= 4 && s[2] == '.' && is_win_sep(s[3]) {
            (next_sep(s, 4, false), true)
        } else {
            let a = next_sep(s, 2, false);
            if a > 2 && a < s.len() && next_sep(s, a + 1, false) > a + 1 {
                (next_sep(s, a + 1, false), true)
            } else {
                (0, false)
            }
        }
    } else if s.len() >= 2 && is_drive_letter(s[0]) && s[1] == ':' {
        (2, false)
    } else {
        (0, false)
    }
}

pub proof fn lemma_next_sep_bounds(s: Seq<char>, i: int, verbatim: bool)
    requires
        0 <= i <= s.len(),
    ensures
        i <= next_sep(s, i, verbatim) <= s.len(),
        next_sep(s, i, verbatim) < s.len() ==> is_prefix_sep(s[next_sep(s, i, verbatim)], verbatim),
        forall|k: int| i <= k < next_sep(s, i, verbatim) ==> !is_prefix_sep(#[trigger] s[k], verbatim),
    decreases s.len() - i,
{
    if i < s.len() && !is_prefix_sep(s[i], verbatim) {
        lemma_next_sep_bounds(s, i + 1, verbatim);
    }
}

pub proof fn lemma_prefix_bounds(s: Seq<char>)
    ensures
        0 <= prefix_of(s).0 <= s.len(),
        prefix_of(s).0 == 0 ==> !prefix_of(s).1,
        prefix_of(s).0 > 0 && !prefix_of(s).1 ==> prefix_of(s).0 == 2 && is_drive_letter(s[0])
            && s[1] == ':',
        prefix_of(s).1 ==> prefix_of(s).0 == s.len() || is_win_sep(s[prefix_of(s).0]),
{
    if s.len() >= 4 {
        lemma_next_sep_bounds(s, 4, true);
        lemma_next_sep_bounds(s, 4, false);
    }
    if s.len() >= 8 {
        lemma_next_sep_bounds(s, 8, true);
        let a = next_sep(s, 8, true);
        if a < s.len() {
            lemma_next_sep_bounds(s, a + 1, true);
        }
    }
    if s.len() >= 2 {
        lemma_next_sep_bounds(s, 2, false);
        let a = next_sep(s, 2, false);
        if a < s.len() {
            lemma_next_sep_bounds(s, a + 1, false);
        }
    }
}

/// Whether `s` starts with a verbatim UNC prefix that stops before its
/// share (`\\?\UNC\server`, or `\\?\UNC` alone): text that follows it
/// would become part of it.
pub open spec fn open_verbatim_unc(s: Seq<char>) -> bool {
    &&& s.len() >= 7
    &&& s[0] == '\\' && s[1] == '\\' && s[2] == '?' && s[3] == '\\'
    &&& s[4] == 'U' && s[5] == 'N' && s[6] == 'C'
    &&& (prefix_of(s).0 == 7 || (s.len() >= 8 && is_win_sep(s[7]) && prefix_of(s).0 == next_sep(
        s,
        8,
        true,
    )))
}

/// `next_sep` reads the same in `q` as in `s` when `q` agrees with `s` up
/// to the separator that `s` stops at, and has a separator or its end there.
proof fn lemma_next_sep_same(s: Seq<char>, q: Seq<char>, i: int, v: bool)
    requires
        0 <= i <= s.len(),
        next_sep(s, i, v) <= q.len(),
        forall|m: int| i <= m < next_sep(s, i, v) ==> q[m] == s[m],
        next_sep(s, i, v) == q.len() || is_prefix_sep(q[next_sep(s, i, v)], v),
    ensures
        next_sep(q, i, v) == next_sep(s, i, v),
    decreases s.len() - i,
{
    lemma_next_sep_bounds(s, i, v);
    if i < s.len() && !is_prefix_sep(s[i], v) {
        assert(q[i] == s[i]);
        lemma_next_sep_same(s, q, i + 1, v);
    }
}

/// A share prefix reads the same when nothing, or a `\` and more text,
/// follows it.
pub proof fn lemma_prefix_stable(s: Seq<char>, x: Seq<char>)
    requires
        prefix_of(s).1,
        !open_verbatim_unc(s),
        x.len() == 0 || x[0] == '\\',
    ensures
        prefix_of(s.take(prefix_of(s).0) + x) == prefix_of(s),
{
    lemma_prefix_bounds(s);
    let k = prefix_of(s).0;
    let q = s.take(k) + x;
    assert(forall|m: int| 0 <= m < k ==> q[m] == s[m]);
    assert(k < q.len() ==> q[k] == '\\');
    if s.len() >= 4 && s[0] == '\\' && s[1] == '\\' && s[2] == '?' && s[3] == '\\' {
        lemma_next_sep_bounds(s, 4, true);
        if s.len() >= 8 && s[4] == 'U' && s[5] == 'N' && s[6] == 'C' && is_win_sep(s[7]) {
            lemma_next_sep_bounds(s, 8, true);
            let a = next_sep(s, 8, true);
            assert(a < s.len() && next_sep(s, a + 1, true) > a + 1);
            lemma_next_sep_bounds(s, a + 1, true);
            lemma_next_sep_same(s, q, 8, true);
            lemma_next_sep_same(s, q, a + 1, true);
        } else if s.len() >= 6 && is_drive_letter(s[4]) && s[5] == ':' && (s.len() == 6 || s[6]
            == '\\') {
        } else {
            lemma_next_sep_same(s, q, 4, true);
            if k >= 8 {
                assert(q[4] == s[4] && q[5] == s[5] && q[6] == s[6] && q[7] == s[7]);
            }
            if k >= 6 {
                assert(q[4] == s[4] && q[5] == s[5]);
                if k > 6 {
                    assert(q[6] == s[6]);
                }
            }
        }
    } else if s.len() >= 4 && s[2] == '.' && is_win_sep(s[3]) {
        lemma_next_sep_bounds(s, 4, false);
        lemma_next_sep_same(s, q, 4, false);
    } else {
        lemma_next_sep_bounds(s, 2, false);
        let a = next_sep(s, 2, false);
        lemma_next_sep_bounds(s, a + 1, false);
        lemma_next_sep_same(s, q, 2, false);
        lemma_next_sep_same(s, q, a + 1, false);
    }
}

fn find_sep(s: &Vec<char>, i: usize, verbatim: bool) -> (r: usize)
    requires
        i <= s.len(),
    ensures
        r == next_sep(s@, i as int, verbatim),
        i <= r <= s.len(),
{
    let mut j = i;
    while j < s.len()
        invariant
            i <= j <= s.len(),
            next_sep(s@, j as int, verbatim) == next_sep(s@, i as int, verbatim),
        decreases s.len() - j,
    {
        let c = s[j];
        if (verbatim && c == '\\') || (!verbatim && (c == '/' || c == '\\')) {
            return j;
        }
        j = j + 1;
    }
    j
}

fn drive_letter(c: char) -> (r: bool)
    ensures
        r == is_drive_letter(c),
{
    ('a' <= c && c <= 'z') || ('A' <= c && c <= 'Z')
}

fn win_sep(c: char) -> (r: bool)
    ensures
        r == is_win_sep(c),
{
    c == '/' || c == '\\'
}

/// Reads the Windows prefix at the start of `s`: its length and whether it
/// implies a root.
pub(crate) fn read_prefix(s: &Vec<char>) -> (r: (usize, bool))
    ensures
        r.0 == prefix_of(s@).0,
        r.1 == prefix_of(s@).1,
{
    let n = s.len();
    if n >= 2 && win_sep(s[0]) && win_sep(s[1]) {
        if n >= 4 && s[0] == '\\' && s[1] == '\\' && s[2] == '?' && s[3] == '\\' {
            if n >= 8 && s[4] == 'U' && s[5] == 'N' && s[6] == 'C' && win_sep(s[7]) {
                let a = find_sep(s, 8, true);
                if a < n {
                    let b = find_sep(s, a + 1, true);
                    if b > a + 1 {
                        return (b, true);
                    }
                }
                (a, true)
            } else if n >= 6 && drive_letter(s[4]) && s[5] == ':' && (n == 6 || s[6] == '\\') {
                (6, true)
            } else {
                (find_sep(s, 4, true), true)
            }
        } else if n >= 4 && s[2] == '.' && win_sep(s[3]) {
            (find_sep(s, 4, false), true)
        } else {
            let a = find_sep(s, 2, false);
            if a > 2 && a < n {
                let b = find_sep(s, a + 1, false);
                if b > a + 1 {
                    return (b, true);
                }
            }
            (0, false)
        }
    } else if n >= 2 && drive_letter(s[0]) && s[1] == ':' {
        (2, false)
    } else {
        (0, false)
    }
}

} // verus!
