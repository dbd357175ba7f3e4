use vstd::prelude::*;
use crate::markdown::tokens::{find_nl, lemma_find_nl, lemma_skip_ws, skip_ws};
use crate::text::{chars_of, is_whitespace, is_ws, string_of_range};

verus! {

/// The index just past the last non-whitespace character of `s[a..e]`, or `a`.
pub open spec fn trim_end(s: Seq<char>, a: int, e: int) -> int
    decreases e - a,
{
    if e > a && is_ws(s[e - 1]) {
        trim_end(s, a, e - 1)
    } else {
        e
    }
}

proof fn lemma_trim_end(s: Seq<char>, a: int, e: int)
    requires
        a <= e,
    ensures
        a <= trim_end(s, a, e) <= e,
    decreases e - a,
{
    if e > a && is_ws(s[e - 1]) {
        lemma_trim_end(s, a, e - 1);
    }
}

/// `s[a..e]` without its leading and trailing whitespace.
pub open spec fn trimmed(s: Seq<char>, a: int, e: int) -> Seq<char> {
    let k = skip_ws(s, a, e);
    s.subrange(k, trim_end(s, k, e))
}

/// A typed line is kept unless it is blank or a comment.
pub open spec fn kept(t: Seq<char>) -> bool {
    t.len() > 0 && t[0] != '#'
}

/// The kept lines of `s[i..e]`, each trimmed.
pub open spec fn typed_from(s: Seq<char>, i: int, e: int) -> Seq<Seq<char>>
    decreases e - i,
    via typed_from_decreases
{
    if i >= e {
        Seq::empty()
    } else {
        let j = find_nl(s, i, e);
        let t = trimmed(s, i, j);
        let here = if kept(t) {
            seq![t]
        } else {
            Seq::empty()
        };
        if j < e {
            here + typed_from(s, j + 1, e)
        } else {
            here
        }
    }
}

#[via_fn]
proof fn typed_from_decreases(s: Seq<char>, i: int, e: int) {
    if i < e {
        lemma_find_nl(s, i, e);
    }
}

/// The lines that someone typed: the text trimmed, split into lines, each line trimmed, and
/// blank lines and lines starting with `#` left out.
pub open spec fn typed_lines_spec(s: Seq<char>) -> Seq<Seq<char>> {
    let a = skip_ws(s, 0, s.len() as int);
    typed_from(s, a, trim_end(s, a, s.len() as int))
}

pub open spec fn texts(v: Seq<String>) -> Seq<Seq<char>> {
    v.map_values(|t: String| t@)
}

fn skip_space(s: &Vec<char>, a: usize, e: usize) -> (r: usize)
    requires
        a <= e <= s@.len(),
    ensures
        r == skip_ws(s@, a as int, e as int),
        a <= r <= e,
{
    proof {
        lemma_skip_ws(s@, a as int, e as int);
    }
    let mut i = a;
    while i < e && is_whitespace(s[i])
        invariant
            a <= i <= e <= s@.len(),
            skip_ws(s@, i as int, e as int) == skip_ws(s@, a as int, e as int),
        decreases e - i,
    {
        i += 1;
    }
    i
}

fn back_space(s: &Vec<char>, a: usize, e: usize) -> (r: usize)
    requires
        a <= e <= s@.len(),
    ensures
        r == trim_end(s@, a as int, e as int),
        a <= r <= e,
{
    proof {
        lemma_trim_end(s@, a as int, e as int);
    }
    let mut j = e;
    while j > a && is_whitespace(s[j - 1])
        invariant
            a <= j <= e <= s@.len(),
            trim_end(s@, a as int, j as int) == trim_end(s@, a as int, e as int),
        decreases j,
    {
        j -= 1;
    }
    j
}

fn line_end(s: &Vec<char>, a: usize, e: usize) -> (r: usize)
    requires
        a <= e <= s@.len(),
    ensures
        r == find_nl(s@, a as int, e as int),
        a <= r <= e,
{
    proof {
        lemma_find_nl(s@, a as int, e as int);
    }
    let mut i = a;
    while i < e && s[i] != '\n'
        invariant
            a <= i <= e <= s@.len(),
            find_nl(s@, i as int, e as int) == find_nl(s@, a as int, e as int),
        decreases e - i,
    {
        i += 1;
    }
    i
}

/// The lines that someone typed into an editor (see `typed_lines_spec`).
pub fn typed_lines(text: &str) -> (r: Vec<String>)
    ensures
        texts(r@) == typed_lines_spec(text@),
{
    let s = chars_of(text);
    let a = skip_space(&s, 0, s.len());
    let e = back_space(&s, a, s.len());
    let mut out: Vec<String> = Vec::new();
    let mut i = a;
    while i < e
        invariant
            a <= i <= e <= s@.len(),
            s@ == text@,
            texts(out@) + typed_from(s@, i as int, e as int) == typed_from(s@, a as int, e as int),
        decreases e - i,
    {
        let j = line_end(&s, i, e);
        let k = skip_space(&s, i, j);
        let m = back_space(&s, k, j);
        let ghost before = texts(out@);
        let ghost rest = if j < e {
            typed_from(s@, j + 1, e as int)
        } else {
            Seq::empty()
        };
        let ghost t = s@.subrange(k as int, m as int);
        if m > k && s[k] != '#' {
            out.push(string_of_range(&s, k, m));
            assert(texts(out@) =~= before + seq![t]);
            assert(before + (seq![t] + rest) =~= (before + seq![t]) + rest);
        } else {
            assert(before + (Seq::<Seq<char>>::empty() + rest) =~= before + rest);
        }
        if j < e {
            i = j + 1;
        } else {
            assert(texts(out@) + Seq::<Seq<char>>::empty() =~= texts(out@));
            i = e;
        }
    }
    assert(texts(out@) + Seq::<Seq<char>>::empty() =~= texts(out@));
    out
}

} // verus!
