use vstd::prelude::*;
use crate::text::{chars_of, is_whitespace, is_ws, string_of, string_of_range};

verus! {

/// One line-level element of a changelog document.
#[derive(Debug)]
pub enum MarkdownToken {
    H1(String),
    H2(String),
    H3(String),
    Paragraph(String),
    UnorderedList,
    ListItem(String, usize),
    Reference(String, String),
    BlankLine,
}

/// The mathematical value of a token: its texts as character sequences.
pub enum TokenView {
    H1(Seq<char>),
    H2(Seq<char>),
    H3(Seq<char>),
    Paragraph(Seq<char>),
    UnorderedList,
    ListItem(Seq<char>, usize),
    Reference(Seq<char>, Seq<char>),
    BlankLine,
}

impl View for MarkdownToken {
    type V = TokenView;

    open spec fn view(&self) -> TokenView {
        match self {
            MarkdownToken::H1(t) => TokenView::H1(t@),
            MarkdownToken::H2(t) => TokenView::H2(t@),
            MarkdownToken::H3(t) => TokenView::H3(t@),
            MarkdownToken::Paragraph(t) => TokenView::Paragraph(t@),
            MarkdownToken::UnorderedList => TokenView::UnorderedList,
            MarkdownToken::ListItem(t, n) => TokenView::ListItem(t@, *n),
            MarkdownToken::Reference(a, b) => TokenView::Reference(a@, b@),
            MarkdownToken::BlankLine => TokenView::BlankLine,
        }
    }
}

/// A malformed line: a reference definition that cannot be split on `": "`.
#[derive(Debug, Clone, Copy, PartialEq, Eq, Structural)]
pub enum ParseError {
    MalformedReference,
}

pub open spec fn views(ts: Seq<MarkdownToken>) -> Seq<TokenView> {
    ts.map_values(|t: MarkdownToken| t@)
}

pub open spec fn append_opt(a: Option<Seq<TokenView>>, b: Option<Seq<TokenView>>) -> Option<
    Seq<TokenView>,
> {
    match (a, b) {
        (Some(x), Some(y)) => Some(x + y),
        _ => None,
    }
}

// ---------------------------------------------------------------------------
// Scanning positions in the document's characters
/// The first index `j` in `i..e` where `s[j]` is not whitespace, or `e`.
pub open spec fn skip_ws(s: Seq<char>, i: int, e: int) -> int
    decreases e - i,
{
    if i < e && is_ws(s[i]) {
        skip_ws(s, i + 1, e)
    } else {
        i
    }
}

/// The first index `j` in `i..e` with `s[j] == '\n'`, or `e`.
pub open spec fn find_nl(s: Seq<char>, i: int, e: int) -> int
    decreases e - i,
{
    if i >= e {
        e
    } else if s[i] == '\n' {
        i
    } else {
        find_nl(s, i + 1, e)
    }
}

/// The first index `j` at or after `i` where `s` holds `"\n\n"`, or `s.len()`.
pub open spec fn find_blank(s: Seq<char>, i: int) -> int
    decreases s.len() - i,
{
    if s.len() - i <= 1 {
        s.len() as int
    } else if s[i] == '\n' && s[i + 1] == '\n' {
        i
    } else {
        find_blank(s, i + 1)
    }
}

/// The first index `j` in `i..e` where `s` holds `": "` (both characters before `e`), or `e`.
pub open spec fn find_colon(s: Seq<char>, i: int, e: int) -> int
    decreases e - i,
{
    if i + 1 >= e {
        e
    } else if s[i] == ':' && s[i + 1] == ' ' {
        i
    } else {
        find_colon(s, i + 1, e)
    }
}

pub proof fn lemma_skip_ws(s: Seq<char>, i: int, e: int)
    requires
        i <= e,
    ensures
        i <= skip_ws(s, i, e) <= e,
    decreases e - i,
{
    if i < e && is_ws(s[i]) {
        lemma_skip_ws(s, i + 1, e);
    }
}

pub proof fn lemma_find_nl(s: Seq<char>, i: int, e: int)
    requires
        i <= e,
    ensures
        i <= find_nl(s, i, e) <= e,
    decreases e - i,
{
    if i < e && s[i] != '\n' {
        lemma_find_nl(s, i + 1, e);
    }
}

pub proof fn lemma_find_blank(s: Seq<char>, i: int)
    requires
        0 <= i <= s.len(),
    ensures
        i <= find_blank(s, i) <= s.len(),
        find_blank(s, i) < s.len() ==> find_blank(s, i) + 2 <= s.len(),
    decreases s.len() - i,
{
    if i + 1 < s.len() && !(s[i] == '\n' && s[i + 1] == '\n') {
        lemma_find_blank(s, i + 1);
    }
}

pub proof fn lemma_find_colon(s: Seq<char>, i: int, e: int)
    requires
        i <= e,
    ensures
        i <= find_colon(s, i, e) <= e,
        find_colon(s, i, e) < e ==> find_colon(s, i, e) + 2 <= e,
    decreases e - i,
{
    if i + 1 < e && !(s[i] == ':' && s[i + 1] == ' ') {
        lemma_find_colon(s, i + 1, e);
    }
}

// ---------------------------------------------------------------------------
// What the tokenizer produces
/// The token for the line `s[a..e]`; `None` for a malformed reference definition.
pub open spec fn lex_line(s: Seq<char>, a: int, e: int) -> Option<TokenView> {
    let k = skip_ws(s, a, e);
    if e - k >= 2 && s[k] == '#' && s[k + 1] == ' ' {
        Some(TokenView::H1(s.subrange(k + 2, e)))
    } else if e - k >= 3 && s[k] == '#' && s[k + 1] == '#' && s[k + 2] == ' ' {
        Some(TokenView::H2(s.subrange(k + 3, e)))
    } else if e - k >= 4 && s[k] == '#' && s[k + 1] == '#' && s[k + 2] == '#' && s[k + 3] == ' ' {
        Some(TokenView::H3(s.subrange(k + 4, e)))
    } else if e - k >= 2 && s[k] == '-' && s[k + 1] == ' ' {
        Some(TokenView::ListItem(s.subrange(k + 2, e), (k - a) as usize))
    } else if e - k >= 1 && s[k] == '[' {
        let c = find_colon(s, k, e);
        if c >= e || c - k < 2 {
            None
        } else {
            Some(TokenView::Reference(s.subrange(k + 1, c - 1), s.subrange(c + 2, e)))
        }
    } else {
        Some(TokenView::Paragraph(s.subrange(k, e)))
    }
}

/// The tokens of the lines of `s[i..e]`, lines being split on `'\n'`.
pub open spec fn lex_lines(s: Seq<char>, i: int, e: int) -> Option<Seq<TokenView>>
    decreases e - i,
    via lex_lines_decreases
{
    if i >= e {
        Some(Seq::empty())
    } else {
        let j = find_nl(s, i, e);
        let here = match lex_line(s, i, j) {
            Some(t) => Some(seq![t]),
            None => None,
        };
        if j < e {
            append_opt(here, lex_lines(s, j + 1, e))
        } else {
            here
        }
    }
}

#[via_fn]
proof fn lex_lines_decreases(s: Seq<char>, i: int, e: int) {
    if i < e {
        lemma_find_nl(s, i, e);
    }
}

/// A group starts with a structural character (`#`, `-` or `[`) after its leading whitespace.
pub open spec fn is_structural(s: Seq<char>, a: int, e: int) -> bool {
    let k = skip_ws(s, a, e);
    k < e && (s[k] == '#' || s[k] == '-' || s[k] == '[')
}

/// The tokens of the group `s[a..e]`: nothing for an empty group, one token per line for a
/// structural group, and one paragraph holding the whole group otherwise.
pub open spec fn lex_group(s: Seq<char>, a: int, e: int) -> Option<Seq<TokenView>> {
    if a >= e {
        Some(Seq::empty())
    } else if is_structural(s, a, e) {
        lex_lines(s, a, e)
    } else {
        Some(seq![TokenView::Paragraph(s.subrange(a, e))])
    }
}

/// The tokens of `s` from index `i` on, groups being separated by `"\n\n"`.
pub open spec fn lex_groups(s: Seq<char>, i: int) -> Option<Seq<TokenView>>
    decreases s.len() - i,
    when 0 <= i <= s.len()
{
    let e = find_blank(s, i);
    proof {
        lemma_find_blank(s, i);
    }
    if e >= s.len() {
        lex_group(s, i, e)
    } else {
        append_opt(lex_group(s, i, e), lex_groups(s, e + 2))
    }
}

/// The tokens of a whole document; `None` when a line is malformed.
pub open spec fn lex_spec(s: Seq<char>) -> Option<Seq<TokenView>> {
    lex_groups(s, 0)
}

// ---------------------------------------------------------------------------
// The tokenizer
fn skip_whitespace(s: &Vec<char>, a: usize, e: usize) -> (r: usize)
    requires
        a <= e <= s@.len(),
    ensures
        r == skip_ws(s@, a as int, e as int),
        a <= r <= e,
{
    let mut i = a;
    proof {
        lemma_skip_ws(s@, a as int, e as int);
    }
    while i < e && is_whitespace(s[i])
        invariant
            a <= i <= e <= s@.len(),
            skip_ws(s@, i as int, e as int) == skip_ws(s@, a as int, e as int),
        decreases e - i,
    {
        i += 1;
    }
    i
}

fn next_newline(s: &Vec<char>, a: usize, e: usize) -> (r: usize)
    requires
        a <= e <= s@.len(),
    ensures
        r == find_nl(s@, a as int, e as int),
        a <= r <= e,
{
    let mut i = a;
    while i < e && s[i] != '\n'
        invariant
            a <= i <= e <= s@.len(),
            find_nl(s@, i as int, e as int) == find_nl(s@, a as int, e as int),
        decreases e - i,
    {
        i += 1;
    }
    i
}

fn next_blank(s: &Vec<char>, a: usize) -> (r: usize)
    requires
        a <= s@.len(),
    ensures
        r == find_blank(s@, a as int),
        a <= r <= s@.len(),
        r < s@.len() ==> r + 2 <= s@.len(),
{
    proof {
        lemma_find_blank(s@, a as int);
    }
    let mut i = a;
    while s.len() - i > 1 && !(s[i] == '\n' && s[i + 1] == '\n')
        invariant
            a <= i <= s@.len(),
            find_blank(s@, i as int) == find_blank(s@, a as int),
        decreases s@.len() - i,
    {
        i += 1;
    }
    if s.len() - i <= 1 {
        s.len()
    } else {
        i
    }
}

fn next_colon(s: &Vec<char>, a: usize, e: usize) -> (r: usize)
    requires
        a <= e <= s@.len(),
    ensures
        r == find_colon(s@, a as int, e as int),
{
    let mut i = a;
    while e - i > 1 && !(s[i] == ':' && s[i + 1] == ' ')
        invariant
            a <= i <= e <= s@.len(),
            find_colon(s@, i as int, e as int) == find_colon(s@, a as int, e as int),
        decreases e - i,
    {
        i += 1;
    }
    if e - i <= 1 {
        e
    } else {
        i
    }
}

fn lex_one_line(s: &Vec<char>, a: usize, e: usize) -> (r: Result<MarkdownToken, ParseError>)
    requires
        a <= e <= s@.len(),
    ensures
        match lex_line(s@, a as int, e as int) {
            Some(t) => r is Ok && r->Ok_0@ == t,
            None => r is Err,
        },
{
    let k = skip_whitespace(s, a, e);
    if e - k >= 2 && s[k] == '#' && s[k + 1] == ' ' {
        Ok(MarkdownToken::H1(string_of_range(s, k + 2, e)))
    } else if e - k >= 3 && s[k] == '#' && s[k + 1] == '#' && s[k + 2] == ' ' {
        Ok(MarkdownToken::H2(string_of_range(s, k + 3, e)))
    } else if e - k >= 4 && s[k] == '#' && s[k + 1] == '#' && s[k + 2] == '#' && s[k + 3] == ' ' {
        Ok(MarkdownToken::H3(string_of_range(s, k + 4, e)))
    } else if e - k >= 2 && s[k] == '-' && s[k + 1] == ' ' {
        Ok(MarkdownToken::ListItem(string_of_range(s, k + 2, e), k - a))
    } else if e - k >= 1 && s[k] == '[' {
        let c = next_colon(s, k, e);
        proof {
            lemma_find_colon(s@, k as int, e as int);
        }
        if c >= e || c - k < 2 {
            Err(ParseError::MalformedReference)
        } else {
            Ok(MarkdownToken::Reference(string_of_range(s, k + 1, c - 1), string_of_range(s, c + 2, e)))
        }
    } else {
        Ok(MarkdownToken::Paragraph(string_of_range(s, k, e)))
    }
}

/// Appends the tokens of the group `s[a..e]` to `out`.
fn lex_group_into(s: &Vec<char>, a: usize, e: usize, out: &mut Vec<MarkdownToken>) -> (r: Result<
    (),
    ParseError,
>)
    requires
        a <= e <= s@.len(),
    ensures
        match lex_group(s@, a as int, e as int) {
            Some(ts) => r is Ok && views(final(out)@) == views(old(out)@) + ts,
            None => r is Err,
        },
{
    if a >= e {
        assert(views(out@) =~= views(out@) + Seq::<TokenView>::empty());
        return Ok(());
    }
    let k = skip_whitespace(s, a, e);
    if k < e && (s[k] == '#' || s[k] == '-' || s[k] == '[') {
        let ghost out0 = views(out@);
        assert(is_structural(s@, a as int, e as int));
        let mut i = a;
        while i < e
            invariant
                a <= i <= e <= s@.len(),
                is_structural(s@, a as int, e as int),
                out0 == views(old(out)@),
                append_opt(Some(views(out@)), lex_lines(s@, i as int, e as int)) == append_opt(
                    Some(out0),
                    lex_lines(s@, a as int, e as int),
                ),
            decreases e - i,
        {
            let j = next_newline(s, i, e);
            let ghost before = views(out@);
            let ghost rest = lex_lines(s@, j + 1, e as int);
            match lex_one_line(s, i, j) {
                Ok(t) => {
                    out.push(t);
                    assert(views(out@) =~= before + seq![t@]);
                    proof {
                        if rest is Some {
                            assert(before + (seq![t@] + rest->Some_0) =~= (before + seq![t@])
                                + rest->Some_0);
                        }
                        if j >= e {
                            assert(views(out@) =~= views(out@) + Seq::<TokenView>::empty());
                        }
                    }
                },
                Err(err) => {
                    assert(lex_lines(s@, i as int, e as int) is None);
                    assert(lex_lines(s@, a as int, e as int) is None);
                    assert(is_structural(s@, a as int, e as int));
                    return Err(err);
                },
            }
            i = if j < e {
                j + 1
            } else {
                e
            };
        }
        assert(views(out@) =~= views(out@) + Seq::<TokenView>::empty());
        Ok(())
    } else {
        let t = MarkdownToken::Paragraph(string_of_range(s, a, e));
        out.push(t);
        assert(views(out@) =~= views(old(out)@) + seq![t@]);
        Ok(())
    }
}

impl MarkdownToken {
    /// Splits `contents` into tokens, groups being separated by a blank line.
    pub fn lex(contents: &str) -> (r: Result<Vec<MarkdownToken>, ParseError>)
        ensures
            match lex_spec(contents@) {
                Some(ts) => r is Ok && views(r->Ok_0@) == ts,
                None => r is Err,
            },
    {
        let s = chars_of(contents);
        let mut out: Vec<MarkdownToken> = Vec::new();
        let mut i: usize = 0;
        loop
            invariant
                i <= s@.len(),
                s@ == contents@,
                append_opt(Some(views(out@)), lex_groups(s@, i as int)) == lex_groups(s@, 0),
            decreases s@.len() - i,
        {
            let e = next_blank(&s, i);
            let ghost before = views(out@);
            let ghost rest = lex_groups(s@, e + 2);
            match lex_group_into(&s, i, e, &mut out) {
                Ok(()) => {},
                Err(err) => {
                    return Err(err);
                },
            }
            if e >= s.len() {
                return Ok(out);
            }
            proof {
                let here = lex_group(s@, i as int, e as int)->Some_0;
                if rest is Some {
                    assert(before + (here + rest->Some_0) =~= (before + here) + rest->Some_0);
                }
            }
            i = e + 2;
        }
    }
}

} // verus!

verus! {

impl Clone for MarkdownToken {
    fn clone(&self) -> (r: MarkdownToken)
        ensures
            r@ == self@,
    {
        match self {
            MarkdownToken::H1(t) => MarkdownToken::H1(t.clone()),
            MarkdownToken::H2(t) => MarkdownToken::H2(t.clone()),
            MarkdownToken::H3(t) => MarkdownToken::H3(t.clone()),
            MarkdownToken::Paragraph(t) => MarkdownToken::Paragraph(t.clone()),
            MarkdownToken::UnorderedList => MarkdownToken::UnorderedList,
            MarkdownToken::ListItem(t, n) => MarkdownToken::ListItem(t.clone(), *n),
            MarkdownToken::Reference(a, b) => MarkdownToken::Reference(a.clone(), b.clone()),
            MarkdownToken::BlankLine => MarkdownToken::BlankLine,
        }
    }
}

impl PartialEq for MarkdownToken {
    fn eq(&self, other: &MarkdownToken) -> (r: bool)
        ensures
            r == (self@ == other@),
    {
        match (self, other) {
            (MarkdownToken::H1(a), MarkdownToken::H1(b)) => a.eq(b),
            (MarkdownToken::H2(a), MarkdownToken::H2(b)) => a.eq(b),
            (MarkdownToken::H3(a), MarkdownToken::H3(b)) => a.eq(b),
            (MarkdownToken::Paragraph(a), MarkdownToken::Paragraph(b)) => a.eq(b),
            (MarkdownToken::UnorderedList, MarkdownToken::UnorderedList) => true,
            (MarkdownToken::ListItem(a, n), MarkdownToken::ListItem(b, m)) => a.eq(b) && *n == *m,
            (MarkdownToken::Reference(a, x), MarkdownToken::Reference(b, y)) => a.eq(b) && x.eq(y),
            (MarkdownToken::BlankLine, MarkdownToken::BlankLine) => true,
            _ => false,
        }
    }
}

impl vstd::std_specs::cmp::PartialEqSpecImpl for MarkdownToken {
    open spec fn obeys_eq_spec() -> bool {
        true
    }

    open spec fn eq_spec(&self, other: &MarkdownToken) -> bool {
        self@ == other@
    }
}

pub open spec fn spaces(n: nat) -> Seq<char> {
    Seq::new(n, |i: int| ' ')
}

/// The text of one token.
pub open spec fn token_text(t: TokenView) -> Seq<char> {
    match t {
        TokenView::H1(x) => seq!['#', ' '] + x + seq!['\n'],
        TokenView::H2(x) => seq!['#', '#', ' '] + x + seq!['\n'],
        TokenView::H3(x) => seq!['#', '#', '#', ' '] + x + seq!['\n'],
        TokenView::Paragraph(x) => x + seq!['\n'],
        TokenView::UnorderedList => Seq::empty(),
        TokenView::ListItem(x, n) => spaces(n as nat) + seq!['-', ' '] + x,
        TokenView::Reference(a, b) => seq!['['] + a + seq![']', ':', ' '] + b,
        TokenView::BlankLine => Seq::empty(),
    }
}

pub fn push_all(out: &mut Vec<char>, cs: &[char])
    ensures
        final(out)@ == old(out)@ + cs@,
{
    let mut i: usize = 0;
    while i < cs.len()
        invariant
            i <= cs@.len(),
            out@ == old(out)@ + cs@.subrange(0, i as int),
        decreases cs@.len() - i,
    {
        out.push(cs[i]);
        i += 1;
        assert(out@ =~= old(out)@ + cs@.subrange(0, i as int));
    }
    assert(cs@.subrange(0, cs@.len() as int) =~= cs@);
}

pub fn push_text(out: &mut Vec<char>, s: &String)
    ensures
        final(out)@ == old(out)@ + s@,
{
    let cs = chars_of(s.as_str());
    push_all(out, cs.as_slice());
}

impl MarkdownToken {
    /// Appends the text of this token to `out`.
    pub fn write_text(&self, out: &mut Vec<char>)
        ensures
            final(out)@ == old(out)@ + token_text(self@),
    {
        let ghost o = out@;
        match self {
            MarkdownToken::H1(x) => {
                push_all(out, &['#', ' ']);
                push_text(out, x);
                out.push('\n');
                assert(out@ =~= o + token_text(self@));
            },
            MarkdownToken::H2(x) => {
                push_all(out, &['#', '#', ' ']);
                push_text(out, x);
                out.push('\n');
                assert(out@ =~= o + token_text(self@));
            },
            MarkdownToken::H3(x) => {
                push_all(out, &['#', '#', '#', ' ']);
                push_text(out, x);
                out.push('\n');
                assert(out@ =~= o + token_text(self@));
            },
            MarkdownToken::Paragraph(x) => {
                push_text(out, x);
                out.push('\n');
                assert(out@ =~= o + token_text(self@));
            },
            MarkdownToken::UnorderedList => {
                assert(out@ =~= o + token_text(self@));
            },
            MarkdownToken::ListItem(x, n) => {
                let mut k: usize = 0;
                while k < *n
                    invariant
                        k <= *n,
                        out@ == o + spaces(k as nat),
                    decreases *n - k,
                {
                    out.push(' ');
                    k += 1;
                    assert(out@ =~= o + spaces(k as nat));
                }
                push_all(out, &['-', ' ']);
                push_text(out, x);
                assert(out@ =~= o + token_text(self@));
            },
            MarkdownToken::Reference(a, b) => {
                out.push('[');
                push_text(out, a);
                push_all(out, &[']', ':', ' ']);
                push_text(out, b);
                assert(out@ =~= o + token_text(self@));
            },
            MarkdownToken::BlankLine => {
                assert(out@ =~= o + token_text(self@));
            },
        }
    }

    /// The text of this token.
    pub fn to_string(&self) -> (r: String)
        ensures
            r@ == token_text(self@),
    {
        let mut out: Vec<char> = Vec::new();
        self.write_text(&mut out);
        assert(out@ =~= token_text(self@));
        string_of(out.as_slice())
    }
}

} // verus!
