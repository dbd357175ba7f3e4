use vstd::prelude::*;
use crate::markdown::tokens::{push_all, push_text};
use crate::repo::Repo;
use crate::semver::{decimal, decimal_text, index_of, lemma_index_of, number_of, parse_number};
use crate::text::{chars_of, string_of, string_of_range};

verus! {

/// `reqwest::Url` (the `url` crate's `Url`), carried through opaquely.
#[verifier::external_type_specification]
#[verifier::external_body]
pub struct ExUrl(reqwest::Url);

/// Relies on `reqwest::Url::parse` (the `url` crate's parser): an absolute URL, or nothing
/// when the text is none.
#[verifier::external_body]
fn parse_url(s: &str) -> (r: Option<reqwest::Url>) {
    reqwest::Url::parse(s).ok()
}

/// Relies on `reqwest::Url::path`: the URL's path, percent-encoded.
#[verifier::external_body]
fn url_path(u: &reqwest::Url) -> (r: String) {
    u.path().to_string()
}

/// The pieces of `s[i..]` between the `c`s (as `str::split` yields them).
pub open spec fn pieces(s: Seq<char>, c: char, i: int) -> Seq<Seq<char>>
    decreases s.len() - i,
    when 0 <= i <= s.len()
{
    let j = index_of(s, c, i);
    proof {
        lemma_index_of(s, c, i);
    }
    if j >= s.len() {
        seq![s.subrange(i, s.len() as int)]
    } else {
        seq![s.subrange(i, j)] + pieces(s, c, j + 1)
    }
}

pub open spec fn org_key() -> Seq<char> {
    seq!['o', 'r', 'g']
}

pub open spec fn repo_key() -> Seq<char> {
    seq!['r', 'e', 'p', 'o']
}

/// The key that a path segment names: plural and singular forms of `commit`, `discussion` and
/// `issue` become the singular.
pub open spec fn canonical_key(k: Seq<char>) -> Seq<char> {
    if k == seq!['c', 'o', 'm', 'm', 'i', 't', 's'] {
        seq!['c', 'o', 'm', 'm', 'i', 't']
    } else if k == seq!['d', 'i', 's', 'c', 'u', 's', 's', 'i', 'o', 'n', 's'] {
        seq!['d', 'i', 's', 'c', 'u', 's', 's', 'i', 'o', 'n']
    } else if k == seq!['i', 's', 's', 'u', 'e', 's'] {
        seq!['i', 's', 's', 'u', 'e']
    } else {
        k
    }
}

/// The key-value pairs that the segments `segs[i..]` give, two at a time.
pub open spec fn pairs_from(segs: Seq<Seq<char>>, i: int) -> Seq<(Seq<char>, Seq<char>)>
    decreases segs.len() - i,
{
    if 0 <= i && i + 1 < segs.len() {
        seq![(canonical_key(segs[i]), segs[i + 1])] + pairs_from(segs, i + 2)
    } else {
        Seq::empty()
    }
}

/// The parts of a GitHub path `/org/repo/key/value/...`: the owner and the repository, then
/// one pair per two segments; `None` when the path has no repository segment.
pub open spec fn path_parts(path: Seq<char>) -> Option<Seq<(Seq<char>, Seq<char>)>> {
    if path.len() == 0 {
        None
    } else {
        let segs = pieces(path.drop_first(), '/', 0);
        if segs.len() < 2 {
            None
        } else {
            Some(seq![(org_key(), segs[0]), (repo_key(), segs[1])] + pairs_from(segs, 2))
        }
    }
}

/// The value of the last pair with key `k`.
pub open spec fn last_value(ps: Seq<(Seq<char>, Seq<char>)>, k: Seq<char>) -> Option<Seq<char>>
    decreases ps.len(),
{
    if ps.len() == 0 {
        None
    } else if ps.last().0 == k {
        Some(ps.last().1)
    } else {
        last_value(ps.drop_last(), k)
    }
}

pub open spec fn pair_views(v: Seq<(String, String)>) -> Seq<(Seq<char>, Seq<char>)> {
    v.map_values(|p: (String, String)| (p.0@, p.1@))
}

/// A link into a GitHub repository, taken apart.
#[derive(Debug)]
pub struct GitHubURL {
    pub repo: Repo,
    /// Key-value pairs from the path; a later pair with the same key wins.
    pub parts: Vec<(String, String)>,
}

fn canonical(k: &Vec<char>) -> (r: Vec<char>)
    ensures
        r@ == canonical_key(k@),
{
    let n = k.len();
    if n == 7 && k[0] == 'c' && k[1] == 'o' && k[2] == 'm' && k[3] == 'm' && k[4] == 'i' && k[5]
        == 't' && k[6] == 's' {
        assert(k@ =~= seq!['c', 'o', 'm', 'm', 'i', 't', 's']);
        return vec!['c', 'o', 'm', 'm', 'i', 't'];
    }
    if n == 11 && k[0] == 'd' && k[1] == 'i' && k[2] == 's' && k[3] == 'c' && k[4] == 'u' && k[5]
        == 's' && k[6] == 's' && k[7] == 'i' && k[8] == 'o' && k[9] == 'n' && k[10] == 's' {
        assert(k@ =~= seq!['d', 'i', 's', 'c', 'u', 's', 's', 'i', 'o', 'n', 's']);
        return vec!['d', 'i', 's', 'c', 'u', 's', 's', 'i', 'o', 'n'];
    }
    if n == 6 && k[0] == 'i' && k[1] == 's' && k[2] == 's' && k[3] == 'u' && k[4] == 'e' && k[5]
        == 's' {
        assert(k@ =~= seq!['i', 's', 's', 'u', 'e', 's']);
        return vec!['i', 's', 's', 'u', 'e'];
    }
    let mut r: Vec<char> = Vec::new();
    let mut i: usize = 0;
    while i < n
        invariant
            n == k@.len(),
            i <= n,
            r@ == k@.subrange(0, i as int),
        decreases n - i,
    {
        r.push(k[i]);
        i += 1;
        assert(r@ =~= k@.subrange(0, i as int));
    }
    assert(r@ =~= k@);
    r
}

fn split_at_char(s: &Vec<char>, c: char, a: usize) -> (r: usize)
    requires
        a <= s@.len(),
    ensures
        r == index_of(s@, c, a as int),
        a <= r <= s@.len(),
{
    proof {
        lemma_index_of(s@, c, a as int);
    }
    let mut i = a;
    while i < s.len() && s[i] != c
        invariant
            a <= i <= s@.len(),
            index_of(s@, c, i as int) == index_of(s@, c, a as int),
        decreases s@.len() - i,
    {
        i += 1;
    }
    i
}

/// The pieces of `s` between the `c`s, as index ranges.
fn piece_bounds(s: &Vec<char>, c: char) -> (r: Vec<(usize, usize)>)
    ensures
        r@.map_values(|b: (usize, usize)| s@.subrange(b.0 as int, b.1 as int)) == pieces(s@, c, 0),
        forall|k: int| 0 <= k < r@.len() ==> #[trigger] r@[k].0 <= r@[k].1 <= s@.len(),
{
    let mut r: Vec<(usize, usize)> = Vec::new();
    let mut i: usize = 0;
    loop
        invariant
            i <= s@.len(),
            forall|k: int| 0 <= k < r@.len() ==> #[trigger] r@[k].0 <= r@[k].1 <= s@.len(),
            r@.map_values(|b: (usize, usize)| s@.subrange(b.0 as int, b.1 as int)) + pieces(s@, c, i as int)
                == pieces(s@, c, 0),
        decreases s@.len() - i,
    {
        let j = split_at_char(s, c, i);
        let ghost before = r@.map_values(|b: (usize, usize)| s@.subrange(b.0 as int, b.1 as int));
        r.push((i, j));
        let ghost after = r@.map_values(|b: (usize, usize)| s@.subrange(b.0 as int, b.1 as int));
        assert(after =~= before + seq![s@.subrange(i as int, j as int)]);
        if j >= s.len() {
            assert(after =~= pieces(s@, c, 0));
            return r;
        }
        assert(before + (seq![s@.subrange(i as int, j as int)] + pieces(s@, c, j + 1)) =~= after
            + pieces(s@, c, j + 1));
        i = j + 1;
    }
}

fn last_value_of(parts: &Vec<(String, String)>, key: &Vec<char>) -> (r: Option<String>)
    ensures
        match last_value(pair_views(parts@), key@) {
            Some(v) => r is Some && r->Some_0@ == v,
            None => r is None,
        },
{
    let mut i = parts.len();
    assert(parts@.subrange(0, i as int) =~= parts@);
    while i > 0
        invariant
            i <= parts@.len(),
            last_value(pair_views(parts@), key@) == last_value(pair_views(parts@.subrange(0, i as int)), key@),
        decreases i,
    {
        let ghost pre = pair_views(parts@.subrange(0, i as int));
        assert(pre.drop_last() =~= pair_views(parts@.subrange(0, i - 1)));
        assert(pre.last() == (parts@[i - 1].0@, parts@[i - 1].1@));
        if crate::semver::is_word(&chars_of(parts[i - 1].0.as_str()), key.as_slice()) {
            return Some(parts[i - 1].1.clone());
        }
        i -= 1;
    }
    assert(pair_views(parts@.subrange(0, 0)) =~= Seq::<(Seq<char>, Seq<char>)>::empty());
    None
}

impl GitHubURL {
    /// The value of `key` among the parts.
    pub fn get(&self, key: &str) -> (r: Option<String>)
        ensures
            match last_value(pair_views(self.parts@), key@) {
                Some(v) => r is Some && r->Some_0@ == v,
                None => r is None,
            },
    {
        last_value_of(&self.parts, &chars_of(key))
    }

    /// Takes a GitHub path apart (see `path_parts`); the repository comes from the last
    /// `org` and `repo` parts.
    pub fn from_path(path: &str) -> (r: Option<GitHubURL>)
        ensures
            match path_parts(path@) {
                Some(ps) => r is Some && pair_views(r->Some_0.parts@) == ps && Some(
                    r->Some_0.repo.org@,
                ) == last_value(ps, org_key()) && Some(r->Some_0.repo.repo@) == last_value(
                    ps,
                    repo_key(),
                ),
                None => r is None,
            },
    {
        let p = chars_of(path);
        if p.len() == 0 {
            return None;
        }
        let mut s: Vec<char> = Vec::new();
        let mut i: usize = 1;
        while i < p.len()
            invariant
                1 <= i <= p@.len(),
                s@ == p@.subrange(1, i as int),
            decreases p@.len() - i,
        {
            s.push(p[i]);
            i += 1;
            assert(s@ =~= p@.subrange(1, i as int));
        }
        assert(s@ =~= path@.drop_first());
        let b = piece_bounds(&s, '/');
        let ghost segs = pieces(s@, '/', 0);
        assert(b@.len() == segs.len());
        if b.len() < 2 {
            return None;
        }
        let mut parts: Vec<(String, String)> = Vec::new();
        let org = String::from_str("org");
        let repo = String::from_str("repo");
        proof {
            reveal_strlit("org");
            reveal_strlit("repo");
            assert(org@ =~= org_key());
            assert(repo@ =~= repo_key());
            assert(segs[0] == s@.subrange(b@[0].0 as int, b@[0].1 as int));
            assert(segs[1] == s@.subrange(b@[1].0 as int, b@[1].1 as int));
        }
        parts.push((org, string_of_range(&s, b[0].0, b[0].1)));
        parts.push((repo, string_of_range(&s, b[1].0, b[1].1)));
        assert(pair_views(parts@) =~= seq![(org_key(), segs[0]), (repo_key(), segs[1])]);
        let ghost head = pair_views(parts@);
        let mut k: usize = 2;
        while b.len() - k > 1
            invariant
                2 <= k <= b@.len(),
                b@.len() == segs.len(),
                segs == b@.map_values(|x: (usize, usize)| s@.subrange(x.0 as int, x.1 as int)),
                forall|q: int| 0 <= q < b@.len() ==> #[trigger] b@[q].0 <= b@[q].1 <= s@.len(),
                pair_views(parts@) + pairs_from(segs, k as int) == head + pairs_from(segs, 2),
            decreases b@.len() - k,
        {
            let key = canonical(&crate::semver::slice_range(&s, b[k].0, b[k].1));
            let value = string_of_range(&s, b[k + 1].0, b[k + 1].1);
            let ghost before = pair_views(parts@);
            proof {
                assert(segs[k as int] == s@.subrange(b@[k as int].0 as int, b@[k as int].1 as int));
                assert(segs[k + 1] == s@.subrange(b@[k + 1].0 as int, b@[k + 1].1 as int));
            }
            parts.push((string_of(key.as_slice()), value));
            let ghost pr = (canonical_key(segs[k as int]), segs[k + 1]);
            assert(pair_views(parts@) =~= before + seq![pr]);
            assert(before + (seq![pr] + pairs_from(segs, k + 2)) =~= (before + seq![pr]) + pairs_from(
                segs,
                k + 2,
            ));
            k += 2;
        }
        assert(pair_views(parts@) =~= pair_views(parts@) + pairs_from(segs, k as int));
        let org_chars = chars_of("org");
        let repo_chars = chars_of("repo");
        proof {
            reveal_strlit("org");
            reveal_strlit("repo");
            assert(org_chars@ =~= org_key());
            assert(repo_chars@ =~= repo_key());
            lemma_last_value_some(pair_views(parts@), org_key(), 0);
            lemma_last_value_some(pair_views(parts@), repo_key(), 1);
        }
        let o = last_value_of(&parts, &org_chars);
        let r = last_value_of(&parts, &repo_chars);
        match (o, r) {
            (Some(o), Some(r)) => Some(GitHubURL { repo: Repo::new(o, r), parts }),
            _ => None,
        }
    }

    /// Takes a GitHub link apart; `Err` when it is not an absolute URL or its path has no
    /// repository segment.
    pub fn from_str(s: &str) -> (r: Result<GitHubURL, String>)
        ensures
            r matches Ok(u) ==> exists|path: Seq<char>| #[trigger] path_parts(path) == Some(
                pair_views(u.parts@),
            ),
    {
        match parse_url(s) {
            Some(u) => {
                let path = url_path(&u);
                match GitHubURL::from_path(path.as_str()) {
                    Some(g) => Ok(g),
                    None => Err(String::from_str("URL should contain the organization and the repo")),
                }
            },
            None => Err(String::from_str("Invalid URL")),
        }
    }
}

proof fn lemma_last_value_some(ps: Seq<(Seq<char>, Seq<char>)>, k: Seq<char>, i: int)
    requires
        0 <= i < ps.len(),
        ps[i].0 == k,
    ensures
        last_value(ps, k) is Some,
    decreases ps.len(),
{
    if ps.last().0 != k {
        assert(ps.drop_last()[i] == ps[i]);
        lemma_last_value_some(ps.drop_last(), k, i);
    }
}

} // verus!

verus! {

pub open spec fn contains(s: Seq<char>, p: Seq<char>) -> bool {
    exists|i: int| 0 <= i && i + p.len() <= s.len() && #[trigger] s.subrange(i, i + p.len()) == p
}

fn has_text(s: &Vec<char>, p: &Vec<char>) -> (r: bool)
    ensures
        r == contains(s@, p@),
{
    let mut i: usize = 0;
    loop
        invariant
            i <= s@.len(),
            forall|j: int|
                0 <= j < i && j + p@.len() <= s@.len() ==> #[trigger] s@.subrange(j, j + p@.len()) != p@,
        decreases s@.len() - i,
    {
        if crate::changelog::starts_at(s, i, p) {
            return true;
        }
        if i == s.len() {
            assert forall|j: int| 0 <= j && j + p@.len() <= s@.len() implies #[trigger] s@.subrange(
                j,
                j + p@.len(),
            ) != p@ by {
                if j >= i {
                    assert(j == i);
                }
            }
            return false;
        }
        i += 1;
    }
}

/// What a link points at.
#[derive(Debug, Clone, Copy, PartialEq, Eq, Structural)]
pub enum LinkKind {
    PullRequest,
    Commit,
    Issue,
    Discussion,
}

/// The kind of a link by the words in its path; a commit (a hash, say) otherwise.
pub open spec fn link_kind_spec(s: Seq<char>) -> LinkKind {
    if contains(s, seq!['/', 'c', 'o', 'm', 'm', 'i', 't', '/']) || contains(s, seq!['/', 'c', 'o', 'm', 'm', 'i', 't', 's', '/']) {
        LinkKind::Commit
    } else if contains(s, seq!['/', 'p', 'u', 'l', 'l', '/']) || contains(s, seq!['/', 'p', 'u', 'l', 'l', 's', '/']) {
        LinkKind::PullRequest
    } else if contains(s, seq!['/', 'i', 's', 's', 'u', 'e', '/']) || contains(s, seq!['/', 'i', 's', 's', 'u', 'e', 's', '/']) {
        LinkKind::Issue
    } else if contains(s, seq!['/', 'd', 'i', 's', 'c', 'u', 's', 's', 'i', 'o', 'n', '/']) || contains(s, seq!['/', 'd', 'i', 's', 'c', 'u', 's', 's', 'i', 'o', 'n', 's', '/']) {
        LinkKind::Discussion
    } else {
        LinkKind::Commit
    }
}

pub fn link_kind(link: &str) -> (r: LinkKind)
    ensures
        r == link_kind_spec(link@),
{
    let s = chars_of(link);
    if has_text(&s, &vec!['/', 'c', 'o', 'm', 'm', 'i', 't', '/']) || has_text(&s, &vec!['/', 'c', 'o', 'm', 'm', 'i', 't', 's', '/']) {
        LinkKind::Commit
    } else if has_text(&s, &vec!['/', 'p', 'u', 'l', 'l', '/']) || has_text(&s, &vec!['/', 'p', 'u', 'l', 'l', 's', '/']) {
        LinkKind::PullRequest
    } else if has_text(&s, &vec!['/', 'i', 's', 's', 'u', 'e', '/']) || has_text(&s, &vec!['/', 'i', 's', 's', 'u', 'e', 's', '/']) {
        LinkKind::Issue
    } else if has_text(&s, &vec!['/', 'd', 'i', 's', 'c', 'u', 's', 's', 'i', 'o', 'n', '/']) || has_text(&s, &vec!['/', 'd', 'i', 's', 'c', 'u', 's', 's', 'i', 'o', 'n', 's', '/']) {
        LinkKind::Discussion
    } else {
        LinkKind::Commit
    }
}

pub open spec fn repo_link(org: Seq<char>, repo: Seq<char>) -> Seq<char> {
    seq!['h', 't', 't', 'p', 's', ':', '/', '/', 'g', 'i', 't', 'h', 'u', 'b', '.', 'c', 'o', 'm', '/'] + org + seq!['/'] + repo + seq!['/']
}

/// `title ([#n](https://github.com/org/repo/<kind>/n))`.
pub open spec fn numbered_text(title: Seq<char>, n: usize, org: Seq<char>, repo: Seq<char>, kind: Seq<char>) -> Seq<char> {
    title + seq![' ', '(', '[', '#'] + decimal(n as nat) + seq![']', '('] + repo_link(org, repo) + kind + seq!['/']
        + decimal(n as nat) + seq![')', ')']
}

fn write_numbered(title: &String, n: usize, repo: &Repo, kind: &[char]) -> (r: String)
    ensures
        r@ == numbered_text(title@, n, repo.org@, repo.repo@, kind@),
{
    let mut out: Vec<char> = Vec::new();
    push_text(&mut out, title);
    push_all(&mut out, &[' ', '(', '[', '#']);
    let d = decimal_text(n as u64);
    push_all(&mut out, d.as_slice());
    push_all(&mut out, &[']', '(']);
    push_all(&mut out, &['h', 't', 't', 'p', 's', ':', '/', '/', 'g', 'i', 't', 'h', 'u', 'b', '.', 'c', 'o', 'm', '/']);
    push_text(&mut out, &repo.org);
    out.push('/');
    push_text(&mut out, &repo.repo);
    out.push('/');
    push_all(&mut out, kind);
    out.push('/');
    push_all(&mut out, d.as_slice());
    push_all(&mut out, &[')', ')']);
    assert(out@ =~= numbered_text(title@, n, repo.org@, repo.repo@, kind@));
    string_of(out.as_slice())
}

/// An issue: its number, its title, and where it lives.
#[derive(Debug)]
pub struct Issue {
    pub number: usize,
    pub title: String,
    pub repo: Repo,
}

/// A pull request.
#[derive(Debug)]
pub struct PullRequest {
    pub number: usize,
    pub title: String,
    pub repo: Repo,
}

/// A discussion.
#[derive(Debug)]
pub struct Discussion {
    pub number: usize,
    pub title: String,
    pub repo: Repo,
}

/// A commit: its hash, its short hash and its title.
#[derive(Debug)]
pub struct Commit {
    pub hash: String,
    pub short_hash: String,
    pub title: String,
    pub repo: Repo,
}

impl Issue {
    /// The changelog text of the issue: its title and a link to it.
    pub fn to_string(&self) -> (r: String)
        ensures
            r@ == numbered_text(self.title@, self.number, self.repo.org@, self.repo.repo@, seq!['i', 's', 's', 'u', 'e', 's']),
    {
        write_numbered(&self.title, self.number, &self.repo, &['i', 's', 's', 'u', 'e', 's'])
    }
}

impl PullRequest {
    /// The changelog text of the pull request: its title and a link to it.
    pub fn to_string(&self) -> (r: String)
        ensures
            r@ == numbered_text(self.title@, self.number, self.repo.org@, self.repo.repo@, seq!['p', 'u', 'l', 'l']),
    {
        write_numbered(&self.title, self.number, &self.repo, &['p', 'u', 'l', 'l'])
    }
}

impl Discussion {
    /// The changelog text of the discussion: its title and a link to it.
    pub fn to_string(&self) -> (r: String)
        ensures
            r@ == numbered_text(self.title@, self.number, self.repo.org@, self.repo.repo@, seq!['d', 'i', 's', 'c', 'u', 's', 's', 'i', 'o', 'n', 's']),
    {
        write_numbered(&self.title, self.number, &self.repo, &['d', 'i', 's', 'c', 'u', 's', 's', 'i', 'o', 'n', 's'])
    }
}

/// `title ([short](https://github.com/org/repo/commit/hash))`.
pub open spec fn commit_text(c: &Commit) -> Seq<char> {
    c.title@ + seq![' ', '(', '['] + c.short_hash@ + seq![']', '('] + repo_link(c.repo.org@, c.repo.repo@)
        + seq!['c', 'o', 'm', 'm', 'i', 't'] + seq!['/'] + c.hash@ + seq![')', ')']
}

impl Commit {
    /// The changelog text of the commit: its title and a link to it.
    pub fn to_string(&self) -> (r: String)
        ensures
            r@ == commit_text(self),
    {
        let mut out: Vec<char> = Vec::new();
        push_text(&mut out, &self.title);
        push_all(&mut out, &[' ', '(', '[']);
        push_text(&mut out, &self.short_hash);
        push_all(&mut out, &[']', '(']);
        push_all(&mut out, &['h', 't', 't', 'p', 's', ':', '/', '/', 'g', 'i', 't', 'h', 'u', 'b', '.', 'c', 'o', 'm', '/']);
        push_text(&mut out, &self.repo.org);
        out.push('/');
        push_text(&mut out, &self.repo.repo);
        out.push('/');
        push_all(&mut out, &['c', 'o', 'm', 'm', 'i', 't']);
        out.push('/');
        push_text(&mut out, &self.hash);
        push_all(&mut out, &[')', ')']);
        assert(out@ =~= commit_text(self));
        string_of(out.as_slice())
    }
}

/// What a link gave.
#[derive(Debug)]
pub enum GitHubInfo {
    PullRequest(PullRequest),
    Commit(Commit),
    Issue(Issue),
    Discussion(Discussion),
}

impl GitHubInfo {
    /// The changelog text of what the link gave.
    pub fn to_string(&self) -> (r: String)
        ensures
            r@ == match self {
                GitHubInfo::PullRequest(p) => numbered_text(p.title@, p.number, p.repo.org@, p.repo.repo@, seq!['p', 'u', 'l', 'l']),
                GitHubInfo::Commit(c) => commit_text(c),
                GitHubInfo::Issue(i) => numbered_text(i.title@, i.number, i.repo.org@, i.repo.repo@, seq!['i', 's', 's', 'u', 'e', 's']),
                GitHubInfo::Discussion(d) => numbered_text(d.title@, d.number, d.repo.org@, d.repo.repo@, seq!['d', 'i', 's', 'c', 'u', 's', 's', 'i', 'o', 'n', 's']),
            },
    {
        match self {
            GitHubInfo::PullRequest(p) => p.to_string(),
            GitHubInfo::Commit(c) => c.to_string(),
            GitHubInfo::Issue(i) => i.to_string(),
            GitHubInfo::Discussion(d) => d.to_string(),
        }
    }
}

impl GitHubURL {
    /// The number under `key` among the parts, as `usize`'s `FromStr` reads it.
    pub fn number(&self, key: &str) -> (r: Option<usize>)
        ensures
            match last_value(pair_views(self.parts@), key@) {
                Some(v) => match number_of(v) {
                    Some(n) => if n <= usize::MAX {
                        r == Some(n as usize)
                    } else {
                        r is None
                    },
                    None => r is None,
                },
                None => r is None,
            },
    {
        match self.get(key) {
            Some(v) => {
                let cs = chars_of(v.as_str());
                let n = parse_number(&cs, 0, cs.len());
                assert(cs@.subrange(0, cs@.len() as int) =~= cs@);
                match n {
                    Some(n) => if n <= usize::MAX as u64 {
                        Some(n as usize)
                    } else {
                        None
                    },
                    None => None,
                }
            },
            None => None,
        }
    }
}

} // verus!
