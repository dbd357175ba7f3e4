use vstd::prelude::*;
use vstd::std_specs::iter::IteratorSpec;

verus! {

/// Relies on `String::push`: appends one character.
#[verifier::external_body]
pub(crate) fn push_char(s: &mut String, c: char)
    ensures
        final(s)@ == old(s)@.push(c),
{
    s.push(c)
}

/// The characters of `s`, in order.
pub fn chars_of(s: &str) -> (r: Vec<char>)
    ensures
        r@ == s@,
{
    let mut r: Vec<char> = Vec::new();
    let mut it = s.chars();
    loop
        invariant
            r@ + it.remaining() == s@,
            it.obeys_prophetic_iter_laws(),
            it.decrease() is Some,
        ensures
            r@ == s@,
        decreases it.decrease()->0,
    {
        match it.next() {
            Some(c) => r.push(c),
            None => {
                assert(r@ =~= s@);
                break;
            },
        }
    }
    r
}

/// A string holding exactly the characters `cs`.
pub fn string_of(cs: &[char]) -> (r: String)
    ensures
        r@ == cs@,
{
    let mut r = String::new();
    let mut i: usize = 0;
    while i < cs.len()
        invariant
            i <= cs@.len(),
            r@ == cs@.subrange(0, i as int),
        decreases cs@.len() - i,
    {
        push_char(&mut r, cs[i]);
        i += 1;
        assert(r@ =~= cs@.subrange(0, i as int));
    }
    assert(cs@.subrange(0, cs@.len() as int) =~= cs@);
    r
}

} // verus!

verus! {

/// Unicode `White_Space`, the set that `char::is_whitespace` tests.
pub open spec fn is_ws(c: char) -> bool {
    let u = c as u32;
    ||| 0x09 <= u <= 0x0D
    ||| u == 0x20
    ||| u == 0x85
    ||| u == 0xA0
    ||| u == 0x1680
    ||| 0x2000 <= u <= 0x200A
    ||| u == 0x2028
    ||| u == 0x2029
    ||| u == 0x202F
    ||| u == 0x205F
    ||| u == 0x3000
}

pub fn is_whitespace(c: char) -> (r: bool)
    ensures
        r == is_ws(c),
{
    let u = c as u32;
    (0x09 <= u && u <= 0x0D) || u == 0x20 || u == 0x85 || u == 0xA0 || u == 0x1680 || (0x2000 <= u
        && u <= 0x200A) || u == 0x2028 || u == 0x2029 || u == 0x202F || u == 0x205F || u == 0x3000
}

/// The code point of `c` with ASCII upper case mapped to lower case.
pub open spec fn fold(c: char) -> u32 {
    let u = c as u32;
    if 0x41 <= u <= 0x5A {
        (u + 32) as u32
    } else {
        u
    }
}

pub fn fold_char(c: char) -> (r: u32)
    ensures
        r == fold(c),
{
    let u = c as u32;
    if 0x41 <= u && u <= 0x5A {
        u + 32
    } else {
        u
    }
}

/// `a` and `b` are equal up to ASCII case.
pub open spec fn eq_ci(a: Seq<char>, b: Seq<char>) -> bool {
    &&& a.len() == b.len()
    &&& forall|i: int| 0 <= i < a.len() ==> fold(#[trigger] a[i]) == fold(b[i])
}

/// `s` begins with `p`, up to ASCII case.
pub open spec fn starts_with_ci(s: Seq<char>, p: Seq<char>) -> bool {
    &&& p.len() <= s.len()
    &&& forall|i: int| 0 <= i < p.len() ==> fold(#[trigger] s[i]) == fold(p[i])
}

pub fn eq_ignore_case(a: &Vec<char>, b: &Vec<char>) -> (r: bool)
    ensures
        r == eq_ci(a@, b@),
{
    if a.len() != b.len() {
        return false;
    }
    starts_with_ignore_case(a, b)
}

pub fn starts_with_ignore_case(s: &Vec<char>, p: &Vec<char>) -> (r: bool)
    ensures
        r == starts_with_ci(s@, p@),
{
    if p.len() > s.len() {
        return false;
    }
    let mut i: usize = 0;
    while i < p.len()
        invariant
            i <= p@.len() <= s@.len(),
            forall|j: int| 0 <= j < i ==> fold(#[trigger] s@[j]) == fold(p@[j]),
        decreases p@.len() - i,
    {
        if fold_char(s[i]) != fold_char(p[i]) {
            return false;
        }
        i += 1;
    }
    true
}

/// A string holding the characters of `s` from `a` up to `e`.
pub fn string_of_range(s: &Vec<char>, a: usize, e: usize) -> (r: String)
    requires
        a <= e <= s@.len(),
    ensures
        r@ == s@.subrange(a as int, e as int),
{
    let mut r = String::new();
    let mut i: usize = a;
    while i < e
        invariant
            a <= i <= e <= s@.len(),
            r@ == s@.subrange(a as int, i as int),
        decreases e - i,
    {
        push_char(&mut r, s[i]);
        i += 1;
        assert(r@ =~= s@.subrange(a as int, i as int));
    }
    r
}

} // verus!
