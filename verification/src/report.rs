//! Helpers for showing results: unwrapping what cannot have failed, and making
//! whitespace visible.

use vstd::pervasive::unreached;
use vstd::prelude::*;

verus! {

/// How `c` is shown: a newline as `\n`, a tab as `\t`, a space as a middle dot,
/// anything else as itself.
pub open spec fn shown(c: char) -> Seq<char> {
    if c == '\n' {
        seq!['\\', 'n']
    } else if c == '\t' {
        seq!['\\', 't']
    } else if c == ' ' {
        seq!['\u{b7}']
    } else {
        seq![c]
    }
}

/// The text `s` with each character as it is shown.
pub open spec fn readable(s: Seq<char>) -> Seq<char>
    decreases s.len(),
{
    if s.len() == 0 {
        Seq::empty()
    } else {
        readable(s.drop_last()) + shown(s.last())
    }
}

/// The value in a result that holds one.
pub fn ordie<T, E>(r: Result<T, E>) -> (v: T)
    requires
        r is Ok,
    ensures
        r == Ok::<T, E>(v),
{
    match r {
        Ok(v) => v,
        Err(_) => unreached(),
    }
}

/// Spells out the whitespace of `s`, so that two texts that differ in it can be
/// told apart by eye. Takes time quadratic in the length of `s`.
pub fn readable_str(s: &str) -> (out: String)
    ensures
        out@ == readable(s@),
{
    let n = s.unicode_len();
    let mut out = String::new();
    let mut i: usize = 0;
    proof {
        assert(s@.take(0) =~= Seq::<char>::empty());
    }
    while i < n
        invariant
            i <= n,
            n == s@.len(),
            out@ == readable(s@.take(i as int)),
        decreases n - i,
    {
        proof {
            reveal_strlit("\\n");
            reveal_strlit("\\t");
            reveal_strlit("\u{b7}");
            assert(s@.take(i + 1).drop_last() =~= s@.take(i as int));
            assert(s@.subrange(i as int, i + 1) =~= seq![s@[i as int]]);
        }
        let c = s.get_char(i);
        if c == '\n' {
            out.append("\\n");
        } else if c == '\t' {
            out.append("\\t");
        } else if c == ' ' {
            out.append("\u{b7}");
        } else {
            out.append(s.substring_char(i, i + 1));
        }
        i = i + 1;
        proof {
            assert(out@ =~= readable(s@.take(i as int)));
        }
    }
    proof {
        assert(s@.take(i as int) =~= s@);
    }
    out
}

} // verus!
