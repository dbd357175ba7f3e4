use vstd::prelude::*;
use crate::markdown::tokens::push_text;
use crate::text::string_of;

verus! {

/// The texts joined by `", "`.
pub open spec fn comma_join(t: Seq<Seq<char>>) -> Seq<char>
    decreases t.len(),
{
    if t.len() == 0 {
        Seq::empty()
    } else if t.len() == 1 {
        t[0]
    } else {
        comma_join(t.drop_last()) + seq![',', ' '] + t.last()
    }
}

/// `a`, `a and b`, `a, b and c`, ...
pub open spec fn conjunction_spec(t: Seq<Seq<char>>) -> Seq<char> {
    if t.len() <= 1 {
        comma_join(t)
    } else {
        comma_join(t.drop_last()) + seq![' ', 'a', 'n', 'd', ' '] + t.last()
    }
}

pub open spec fn texts(list: Seq<String>) -> Seq<Seq<char>> {
    list.map_values(|s: String| s@)
}

/// The items in a sentence: commas between them, and `and` before the last.
pub fn conjunction(list: &[String]) -> (r: String)
    ensures
        r@ == conjunction_spec(texts(list@)),
{
    let n = list.len();
    let ghost t = texts(list@);
    let mut out: Vec<char> = Vec::new();
    let mut i: usize = 0;
    while i < n
        invariant
            n == list@.len(),
            t == texts(list@),
            i <= n,
            i < n || n <= 1 ==> out@ == comma_join(t.subrange(0, i as int)),
            i == n && n > 1 ==> out@ == conjunction_spec(t),
        decreases n - i,
    {
        let ghost before = out@;
        if i == n - 1 && i > 0 {
            out.push(' ');
            out.push('a');
            out.push('n');
            out.push('d');
            out.push(' ');
        } else if i > 0 {
            out.push(',');
            out.push(' ');
        }
        push_text(&mut out, &list[i]);
        proof {
            let prefix = t.subrange(0, i + 1);
            assert(prefix.drop_last() =~= t.subrange(0, i as int));
            assert(t[i as int] == list@[i as int]@);
            if i == 0 {
                assert(out@ =~= prefix[0]);
            } else if i == n - 1 {
                assert(t.subrange(0, i as int) =~= t.drop_last());
                assert(out@ =~= conjunction_spec(t));
            } else {
                assert(out@ =~= before + seq![',', ' '] + prefix.last());
            }
        }
        i += 1;
    }
    proof {
        if n <= 1 {
            assert(t.subrange(0, n as int) =~= t);
        }
    }
    string_of(out.as_slice())
}

} // verus!
