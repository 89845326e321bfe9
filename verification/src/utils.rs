//! Source preparation: keeping only the characters the language knows.

use vstd::prelude::*;

use crate::command::is_bf_char;

verus! {

/// `s` with every character that is not one of the eight symbols
/// removed.
pub open spec fn bf_filter(s: Seq<char>) -> Seq<char>
    decreases s.len(),
{
    if s.len() == 0 {
        Seq::empty()
    } else {
        bf_filter(s.drop_last()) + (if is_bf_char(s.last()) {
            seq![s.last()]
        } else {
            Seq::empty()
        })
    }
}

/// Keeps only the eight recognized symbols of `source`; yields `None`
/// when the source, or what is left of it, is empty.
pub fn clean(source: String) -> (r: Option<String>)
    ensures
        r is Some <==> source@.len() > 0 && bf_filter(source@).len() > 0,
        r is Some ==> r->0@ == bf_filter(source@),
{
    let s = source.as_str();
    let n = s.unicode_len();
    if n == 0 {
        return None;
    }
    let mut code = String::new();
    let mut i: usize = 0;
    while i < n
        invariant
            i <= n,
            n == s@.len(),
            code@ == bf_filter(s@.take(i as int)),
        decreases n - i,
    {
        let c = s.get_char(i);
        let keep = match c {
            '+' | '-' | '<' | '>' | '[' | ']' | '.' | ',' => true,
            _ => false,
        };
        if keep {
            let piece = s.substring_char(i, i + 1);
            proof {
                assert(piece@ =~= seq![s@[i as int]]);
            }
            code.append(piece);
        }
        proof {
            assert(s@.take(i + 1).drop_last() =~= s@.take(i as int));
            assert(s@.take(i + 1).last() == s@[i as int]);
        }
        i += 1;
    }
    proof {
        assert(s@.take(n as int) =~= s@);
    }
    if code.as_str().unicode_len() == 0 {
        None
    } else {
        Some(code)
    }
}

} // verus!
