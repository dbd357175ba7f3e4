use vstd::prelude::*;
use crate::text::{chars_of, string_of};

verus! {

/// A semantic version `major.minor.patch[-pre_release]`.
#[derive(Debug)]
pub struct SemVer {
    pub major: u64,
    pub minor: u64,
    pub patch: u64,
    pub pre_release: Option<String>,
}

pub struct SemVerView {
    pub major: u64,
    pub minor: u64,
    pub patch: u64,
    pub pre_release: Option<Seq<char>>,
}

impl View for SemVer {
    type V = SemVerView;

    open spec fn view(&self) -> SemVerView {
        SemVerView {
            major: self.major,
            minor: self.minor,
            patch: self.patch,
            pre_release: match self.pre_release {
                Some(p) => Some(p@),
                None => None,
            },
        }
    }
}

/// Why a text is not a version.
#[derive(Debug, Clone, Copy, PartialEq, Eq, Structural)]
pub enum SemVerError {
    MissingMajor,
    MissingMinor,
    MissingPatch,
    NonNumeric,
}

/// Which part of a version to raise.
#[derive(Debug, Clone, Copy, PartialEq, Eq, Structural)]
pub enum Bump {
    Major,
    Minor,
    Patch,
}

pub open spec fn is_digit(c: char) -> bool {
    '0' <= c <= '9'
}

pub open spec fn digit_value(c: char) -> nat {
    (c as u32 - '0' as u32) as nat
}

/// The number written by the decimal digits `s`.
pub open spec fn digits_value(s: Seq<char>) -> nat
    decreases s.len(),
{
    if s.len() == 0 {
        0
    } else {
        digits_value(s.drop_last()) * 10 + digit_value(s.last())
    }
}

pub open spec fn all_digits(s: Seq<char>) -> bool {
    forall|i: int| 0 <= i < s.len() ==> is_digit(#[trigger] s[i])
}

/// The number that `s` writes in the form that `u64`'s `FromStr` accepts: an optional `+`
/// and one or more decimal digits, whose value fits in 64 bits.
pub open spec fn number_of(s: Seq<char>) -> Option<u64> {
    let d = if s.len() > 0 && s[0] == '+' {
        s.drop_first()
    } else {
        s
    };
    if d.len() > 0 && all_digits(d) && digits_value(d) <= u64::MAX {
        Some(digits_value(d) as u64)
    } else {
        None
    }
}

/// The decimal digits of `n`.
pub open spec fn decimal(n: nat) -> Seq<char>
    decreases n,
{
    if n < 10 {
        seq![digit_char(n)]
    } else {
        decimal(n / 10) + seq![digit_char(n % 10)]
    }
}

pub open spec fn digit_char(d: nat) -> char {
    if d == 0 { '0' } else if d == 1 { '1' } else if d == 2 { '2' } else if d == 3 { '3' } else if d
        == 4 { '4' } else if d == 5 { '5' } else if d == 6 { '6' } else if d == 7 { '7' } else if d
        == 8 { '8' } else { '9' }
}

fn digit(d: u64) -> (r: char)
    requires
        d < 10,
    ensures
        r == digit_char(d as nat),
{
    if d == 0 { '0' } else if d == 1 { '1' } else if d == 2 { '2' } else if d == 3 { '3' } else if d
        == 4 { '4' } else if d == 5 { '5' } else if d == 6 { '6' } else if d == 7 { '7' } else if d
        == 8 { '8' } else { '9' }
}

/// The text of a version.
pub open spec fn semver_text(v: SemVerView) -> Seq<char> {
    let core = decimal(v.major as nat) + seq!['.'] + decimal(v.minor as nat) + seq!['.'] + decimal(
        v.patch as nat,
    );
    match v.pre_release {
        Some(p) => core + seq!['-'] + p,
        None => core,
    }
}

/// The index of the first `c` in `s` at or after `i`, or `s.len()`.
pub open spec fn index_of(s: Seq<char>, c: char, i: int) -> int
    decreases s.len() - i,
{
    if i >= s.len() {
        s.len() as int
    } else if s[i] == c {
        i
    } else {
        index_of(s, c, i + 1)
    }
}

pub proof fn lemma_index_of(s: Seq<char>, c: char, i: int)
    requires
        0 <= i <= s.len(),
    ensures
        i <= index_of(s, c, i) <= s.len(),
        index_of(s, c, i) < s.len() ==> s[index_of(s, c, i)] == c,
    decreases s.len() - i,
{
    if i < s.len() && s[i] != c {
        lemma_index_of(s, c, i + 1);
    }
}

/// What parsing `s` as a version gives: the pre-release is what follows the first `-`; the
/// rest is split on dots, and its first three pieces are the numbers.
pub open spec fn parse_semver(s: Seq<char>) -> Result<SemVerView, SemVerError> {
    let h = index_of(s, '-', 0);
    let core = s.subrange(0, h);
    let pre = if h < s.len() {
        Some(s.subrange(h + 1, s.len() as int))
    } else {
        None
    };
    let j0 = index_of(core, '.', 0);
    let j1 = index_of(core, '.', j0 + 1);
    let j2 = index_of(core, '.', j1 + 1);
    if j0 >= core.len() {
        Err(SemVerError::MissingMinor)
    } else if j1 >= core.len() {
        Err(SemVerError::MissingPatch)
    } else {
        match (
            number_of(core.subrange(0, j0)),
            number_of(core.subrange(j0 + 1, j1)),
            number_of(core.subrange(j1 + 1, j2)),
        ) {
            (Some(a), Some(b), Some(c)) => Ok(
                SemVerView { major: a, minor: b, patch: c, pre_release: pre },
            ),
            _ => Err(SemVerError::NonNumeric),
        }
    }
}

/// `v` raised by `kind`; the pre-release is dropped.
pub open spec fn bumped(v: SemVerView, kind: Bump) -> SemVerView {
    match kind {
        Bump::Major => SemVerView { major: (v.major + 1) as u64, minor: 0, patch: 0, pre_release: None },
        Bump::Minor => SemVerView { major: v.major, minor: (v.minor + 1) as u64, patch: 0, pre_release: None },
        Bump::Patch => SemVerView {
            major: v.major,
            minor: v.minor,
            patch: (v.patch + 1) as u64,
            pre_release: None,
        },
    }
}

pub open spec fn can_bump(v: SemVerView, kind: Bump) -> bool {
    match kind {
        Bump::Major => v.major < u64::MAX,
        Bump::Minor => v.minor < u64::MAX,
        Bump::Patch => v.patch < u64::MAX,
    }
}

/// Reads the number in `s[a..e]` as `u64`'s `FromStr` does.
pub fn parse_number(s: &Vec<char>, a: usize, e: usize) -> (r: Option<u64>)
    requires
        a <= e <= s@.len(),
    ensures
        r == number_of(s@.subrange(a as int, e as int)),
{
    let ghost whole = s@.subrange(a as int, e as int);
    let start = if a < e && s[a] == '+' {
        a + 1
    } else {
        a
    };
    let ghost d = s@.subrange(start as int, e as int);
    assert(d =~= (if whole.len() > 0 && whole[0] == '+' {
        whole.drop_first()
    } else {
        whole
    }));
    assert(number_of(whole) == (if d.len() > 0 && all_digits(d) && digits_value(d) <= u64::MAX {
        Some(digits_value(d) as u64)
    } else {
        None
    }));
    if start >= e {
        return None;
    }
    let mut i = start;
    while i < e
        invariant
            start <= i <= e <= s@.len(),
            d == s@.subrange(start as int, e as int),
            whole == s@.subrange(a as int, e as int),
            d.len() > 0,
            number_of(whole) == (if all_digits(d) && digits_value(d) <= u64::MAX {
                Some(digits_value(d) as u64)
            } else {
                None
            }),
            forall|k: int| start <= k < i ==> is_digit(#[trigger] s@[k]),
        decreases e - i,
    {
        if !('0' <= s[i] && s[i] <= '9') {
            assert(!is_digit(d[i - start]));
            assert(!all_digits(d));
            return None;
        }
        i += 1;
    }
    assert(all_digits(d));
    let mut v: u64 = 0;
    i = start;
    while i < e
        invariant
            start <= i <= e <= s@.len(),
            d == s@.subrange(start as int, e as int),
            whole == s@.subrange(a as int, e as int),
            number_of(whole) == (if digits_value(d) <= u64::MAX {
                Some(digits_value(d) as u64)
            } else {
                None
            }),
            all_digits(d),
            v as nat == digits_value(s@.subrange(start as int, i as int)),
        decreases e - i,
    {
        assert(d[i - start] == s@[i as int]);
        assert(is_digit(s@[i as int]));
        let dv = (s[i] as u32 - '0' as u32) as u64;
        let ghost prefix = s@.subrange(start as int, i + 1);
        assert(prefix.drop_last() =~= s@.subrange(start as int, i as int));
        assert(prefix.last() == s@[i as int]);
        assert(dv < 10);
        assert(digits_value(prefix) == v * 10 + dv);
        if v > (u64::MAX - dv) / 10 {
            assert(v * 10 + dv > u64::MAX) by (nonlinear_arith)
                requires
                    v > (u64::MAX - dv) / 10,
                    dv < 10,
            ;
            proof {
                lemma_digits_value_grows(d, i + 1 - start);
                assert(d.subrange(0, i + 1 - start) =~= prefix);
                assert(digits_value(d) > u64::MAX);
            }
            return None;
        }
        assert(v * 10 + dv <= u64::MAX) by (nonlinear_arith)
            requires
                v <= (u64::MAX - dv) / 10,
                dv < 10,
        ;
        v = v * 10 + dv;
        i += 1;
    }
    assert(s@.subrange(start as int, i as int) =~= d);
    Some(v)
}

/// A prefix of digits is worth no more than the whole.
proof fn lemma_digits_value_grows(d: Seq<char>, k: int)
    requires
        0 <= k <= d.len(),
    ensures
        digits_value(d.subrange(0, k)) <= digits_value(d),
    decreases d.len() - k,
{
    if k < d.len() {
        lemma_digits_value_grows(d, k + 1);
        assert(d.subrange(0, k + 1).drop_last() =~= d.subrange(0, k));
    } else {
        assert(d.subrange(0, k) =~= d);
    }
}

/// The decimal digits of `n`.
pub fn decimal_text(n: u64) -> (r: Vec<char>)
    ensures
        r@ == decimal(n as nat),
    decreases n,
{
    if n < 10 {
        let c = digit(n);
        vec![c]
    } else {
        let mut r = decimal_text(n / 10);
        let c = digit(n % 10);
        r.push(c);
        r
    }
}

impl SemVer {
    pub fn new(major: u64, minor: u64, patch: u64, pre_release: Option<String>) -> (r: SemVer)
        ensures
            r.major == major,
            r.minor == minor,
            r.patch == patch,
            r.pre_release == pre_release,
    {
        SemVer { major, minor, patch, pre_release }
    }

    /// Parses `major.minor.patch[-pre_release]`.
    pub fn from_str(s: &str) -> (r: Result<SemVer, SemVerError>)
        ensures
            match parse_semver(s@) {
                Ok(v) => r is Ok && r->Ok_0@ == v,
                Err(e) => r == Err::<SemVer, SemVerError>(e),
            },
    {
        let cs = chars_of(s);
        let h = next_index(&cs, '-', 0);
        let pre = if h < cs.len() {
            Some(crate::text::string_of_range(&cs, h + 1, cs.len()))
        } else {
            None
        };
        let core = slice_to_vec(&cs, h);
        let j0 = next_index(&core, '.', 0);
        if j0 >= core.len() {
            return Err(SemVerError::MissingMinor);
        }
        let j1 = next_index(&core, '.', j0 + 1);
        if j1 >= core.len() {
            return Err(SemVerError::MissingPatch);
        }
        let j2 = next_index(&core, '.', j1 + 1);
        let major = parse_number(&core, 0, j0);
        let minor = parse_number(&core, j0 + 1, j1);
        let patch = parse_number(&core, j1 + 1, j2);
        match (major, minor, patch) {
            (Some(a), Some(b), Some(c)) => Ok(SemVer::new(a, b, c, pre)),
            _ => Err(SemVerError::NonNumeric),
        }
    }

    /// This version raised by `kind`.
    pub fn bump(&self, kind: Bump) -> (r: SemVer)
        requires
            can_bump(self@, kind),
        ensures
            r@ == bumped(self@, kind),
    {
        match kind {
            Bump::Major => SemVer::new(self.major + 1, 0, 0, None),
            Bump::Minor => SemVer::new(self.major, self.minor + 1, 0, None),
            Bump::Patch => SemVer::new(self.major, self.minor, self.patch + 1, None),
        }
    }

    pub fn new_major(&self) -> (r: SemVer)
        requires
            self.major < u64::MAX,
        ensures
            r@ == bumped(self@, Bump::Major),
    {
        self.bump(Bump::Major)
    }

    pub fn new_minor(&self) -> (r: SemVer)
        requires
            self.minor < u64::MAX,
        ensures
            r@ == bumped(self@, Bump::Minor),
    {
        self.bump(Bump::Minor)
    }

    pub fn new_patch(&self) -> (r: SemVer)
        requires
            self.patch < u64::MAX,
        ensures
            r@ == bumped(self@, Bump::Patch),
    {
        self.bump(Bump::Patch)
    }

    /// The text `major.minor.patch[-pre_release]`.
    pub fn to_string(&self) -> (r: String)
        ensures
            r@ == semver_text(self@),
    {
        let mut out = decimal_text(self.major);
        out.push('.');
        let mut m = decimal_text(self.minor);
        out.append(&mut m);
        out.push('.');
        let mut p = decimal_text(self.patch);
        out.append(&mut p);
        match &self.pre_release {
            Some(pre) => {
                out.push('-');
                let mut cs = chars_of(pre.as_str());
                out.append(&mut cs);
            },
            None => {},
        }
        assert(out@ =~= semver_text(self@));
        string_of(out.as_slice())
    }
}

impl Clone for SemVer {
    fn clone(&self) -> (r: SemVer)
        ensures
            r@ == self@,
    {
        let pre = match &self.pre_release {
            Some(p) => Some(p.clone()),
            None => None,
        };
        SemVer::new(self.major, self.minor, self.patch, pre)
    }
}

fn next_index(s: &Vec<char>, c: char, a: usize) -> (r: usize)
    requires
        a <= s@.len(),
    ensures
        r == index_of(s@, c, a as int),
        a <= r <= s@.len(),
{
    proof {
        lemma_index_of(s@, c, a as int);
    }
    let mut i = a;
    while i < s.len() && s[i] != c
        invariant
            a <= i <= s@.len(),
            index_of(s@, c, i as int) == index_of(s@, c, a as int),
        decreases s@.len() - i,
    {
        i += 1;
    }
    i
}

fn slice_to_vec(cs: &Vec<char>, n: usize) -> (r: Vec<char>)
    requires
        n <= cs@.len(),
    ensures
        r@ == cs@.subrange(0, n as int),
{
    let mut r: Vec<char> = Vec::new();
    let mut i: usize = 0;
    while i < n
        invariant
            i <= n <= cs@.len(),
            r@ == cs@.subrange(0, i as int),
        decreases n - i,
    {
        r.push(cs[i]);
        i += 1;
        assert(r@ =~= cs@.subrange(0, i as int));
    }
    r
}

} // verus!

verus! {

pub open spec fn major_word() -> Seq<char> {
    seq!['m', 'a', 'j', 'o', 'r']
}

pub open spec fn minor_word() -> Seq<char> {
    seq!['m', 'i', 'n', 'o', 'r']
}

pub open spec fn patch_word() -> Seq<char> {
    seq!['p', 'a', 't', 'c', 'h']
}

pub open spec fn infer_word() -> Seq<char> {
    seq!['i', 'n', 'f', 'e', 'r']
}

/// The version that `change_to(word)` moves `v` to.
pub open spec fn change_spec(v: SemVerView, word: Seq<char>) -> Result<SemVerView, SemVerError> {
    if word == major_word() {
        Ok(bumped(v, Bump::Major))
    } else if word == minor_word() {
        Ok(bumped(v, Bump::Minor))
    } else if word == patch_word() {
        Ok(bumped(v, Bump::Patch))
    } else if word == infer_word() {
        Ok(v)
    } else {
        parse_semver(word)
    }
}

pub fn is_word(cs: &Vec<char>, w: &[char]) -> (r: bool)
    ensures
        r == (cs@ == w@),
{
    if cs.len() != w.len() {
        return false;
    }
    let mut i: usize = 0;
    while i < cs.len()
        invariant
            i <= cs@.len() == w@.len(),
            forall|j: int| 0 <= j < i ==> cs@[j] == w@[j],
        decreases cs@.len() - i,
    {
        if cs[i] != w[i] {
            return false;
        }
        i += 1;
    }
    assert(cs@ =~= w@);
    true
}

impl SemVer {
    /// Moves to `major`, `minor` or `patch` raised, keeps the version for `infer`, or takes
    /// the version that `version` writes; returns the new version.
    pub fn change_to(&mut self, version: &str) -> (r: Result<SemVer, SemVerError>)
        requires
            version@ == major_word() ==> old(self).major < u64::MAX,
            version@ == minor_word() ==> old(self).minor < u64::MAX,
            version@ == patch_word() ==> old(self).patch < u64::MAX,
        ensures
            match change_spec(old(self)@, version@) {
                Ok(v) => r is Ok && r->Ok_0@ == v && final(self)@ == v,
                Err(e) => r == Err::<SemVer, SemVerError>(e) && final(self)@ == old(self)@,
            },
    {
        let cs = chars_of(version);
        let next = if is_word(&cs, &['m', 'a', 'j', 'o', 'r']) {
            self.new_major()
        } else if is_word(&cs, &['m', 'i', 'n', 'o', 'r']) {
            self.new_minor()
        } else if is_word(&cs, &['p', 'a', 't', 'c', 'h']) {
            self.new_patch()
        } else if is_word(&cs, &['i', 'n', 'f', 'e', 'r']) {
            self.clone()
        } else {
            SemVer::from_str(version)?
        };
        *self = next.clone();
        Ok(next)
    }
}

} // verus!

verus! {

/// The characters `s[a..e]`.
pub fn slice_range(s: &Vec<char>, a: usize, e: usize) -> (r: Vec<char>)
    requires
        a <= e <= s@.len(),
    ensures
        r@ == s@.subrange(a as int, e as int),
{
    let mut r: Vec<char> = Vec::new();
    let mut i = a;
    while i < e
        invariant
            a <= i <= e <= s@.len(),
            r@ == s@.subrange(a as int, i as int),
        decreases e - i,
    {
        r.push(s[i]);
        i += 1;
        assert(r@ =~= s@.subrange(a as int, i as int));
    }
    r
}

} // verus!
