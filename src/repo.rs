use vstd::prelude::*;
use crate::changelog::{replace_all, replace_text};
use crate::text::{chars_of, string_of_range};

verus! {

/// A repository on GitHub: its owner and its name.
#[derive(Debug)]
pub struct Repo {
    pub org: String,
    pub repo: String,
}

pub open spec fn dot_git() -> Seq<char> {
    seq!['.', 'g', 'i', 't']
}

/// The index just after the last `c` in `s[..e]`, or 0.
pub open spec fn after_last(s: Seq<char>, c: char, e: int) -> int
    decreases e,
{
    if e <= 0 {
        0
    } else if s[e - 1] == c {
        e
    } else {
        after_last(s, c, e - 1)
    }
}

/// The owner and name that a remote URL (`git@host:owner/name.git` or
/// `https://host/owner/name`) gives: with `.git` removed, the part after the last `:`, split
/// on `/`, gives the first two pieces; `None` when there is no `/` there.
pub open spec fn remote_parts(url: Seq<char>) -> Option<(Seq<char>, Seq<char>)> {
    let s = replace_all(url, dot_git(), Seq::empty());
    let a = after_last(s, ':', s.len() as int);
    let j = crate::semver::index_of(s, '/', a);
    if j >= s.len() {
        None
    } else {
        let k = crate::semver::index_of(s, '/', j + 1);
        Some((s.subrange(a, j), s.subrange(j + 1, k)))
    }
}

proof fn lemma_after_last(s: Seq<char>, c: char, e: int)
    requires
        0 <= e <= s.len(),
    ensures
        0 <= after_last(s, c, e) <= e,
    decreases e,
{
    if e > 0 && s[e - 1] != c {
        lemma_after_last(s, c, e - 1);
    }
}

fn find_index(s: &Vec<char>, c: char, a: usize) -> (r: usize)
    requires
        a <= s@.len(),
    ensures
        r == crate::semver::index_of(s@, c, a as int),
        a <= r <= s@.len(),
{
    proof {
        crate::semver::lemma_index_of(s@, c, a as int);
    }
    let mut i = a;
    while i < s.len() && s[i] != c
        invariant
            a <= i <= s@.len(),
            crate::semver::index_of(s@, c, i as int) == crate::semver::index_of(s@, c, a as int),
        decreases s@.len() - i,
    {
        i += 1;
    }
    i
}

impl Repo {
    pub fn new(org: String, repo: String) -> (r: Repo)
        ensures
            r.org == org,
            r.repo == repo,
    {
        Repo { org, repo }
    }

    /// The repository that a remote URL names (see `remote_parts`).
    pub fn from_remote_url(url: &str) -> (r: Option<Repo>)
        ensures
            match remote_parts(url@) {
                Some((o, n)) => r is Some && r->Some_0.org@ == o && r->Some_0.repo@ == n,
                None => r is None,
            },
    {
        let git = String::from_str(".git");
        let empty = String::new();
        proof {
            reveal_strlit(".git");
            assert(git@ =~= dot_git());
        }
        let stripped = replace_text(url, git.as_str(), empty.as_str());
        let s = chars_of(stripped.as_str());
        let mut a = s.len();
        proof {
            lemma_after_last(s@, ':', s@.len() as int);
        }
        while a > 0 && s[a - 1] != ':'
            invariant
                a <= s@.len(),
                after_last(s@, ':', a as int) == after_last(s@, ':', s@.len() as int),
            decreases a,
        {
            a -= 1;
        }
        let j = find_index(&s, '/', a);
        if j >= s.len() {
            return None;
        }
        let k = find_index(&s, '/', j + 1);
        Some(Repo::new(string_of_range(&s, a, j), string_of_range(&s, j + 1, k)))
    }
}

} // verus!
