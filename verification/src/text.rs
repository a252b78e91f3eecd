//! Small text utilities shared by the parsing modules: trimming, character
//! counting, and appending single characters to an owned string.

use vstd::prelude::*;

use crate::tokens::is_word_sep;
use crate::tokens::is_word_sep_exec;

verus! {

/// `s` without its leading whitespace.
pub open spec fn trim_leading_chars(s: Seq<char>) -> Seq<char>
    decreases s.len(),
{
    if s.len() > 0 && is_word_sep(s[0]) {
        trim_leading_chars(s.drop_first())
    } else {
        s
    }
}

/// `s` without its trailing whitespace.
pub open spec fn trim_trailing_chars(s: Seq<char>) -> Seq<char>
    decreases s.len(),
{
    if s.len() > 0 && is_word_sep(s.last()) {
        trim_trailing_chars(s.drop_last())
    } else {
        s
    }
}

/// `s` without leading and trailing whitespace.
pub open spec fn trim_chars(s: Seq<char>) -> Seq<char> {
    trim_trailing_chars(trim_leading_chars(s))
}

/// How often `c` occurs in `s`.
pub open spec fn count_char(s: Seq<char>, c: char) -> nat
    decreases s.len(),
{
    if s.len() == 0 {
        0
    } else {
        (if s[0] == c {
            1nat
        } else {
            0nat
        }) + count_char(s.drop_first(), c)
    }
}

/// Relies on String::push: appends exactly the one character.
#[verifier::external_body]
pub fn push_char(s: &mut String, c: char)
    ensures
        final(s)@ == old(s)@.push(c),
{
    s.push(c);
}

/// A copy of `s` without leading and trailing whitespace.
pub fn trim_str(s: &str) -> (r: String)
    ensures
        r@ == trim_chars(s@),
{
    let n = s.unicode_len();
    let mut lo: usize = 0;
    proof {
        assert(s@.skip(0) =~= s@);
    }
    while lo < n && is_word_sep_exec(s.get_char(lo))
        invariant
            n == s@.len(),
            0 <= lo <= n,
            trim_leading_chars(s@) == trim_leading_chars(s@.skip(lo as int)),
        decreases n - lo,
    {
        proof {
            assert(s@.skip(lo as int)[0] == s@[lo as int]);
            assert(s@.skip(lo as int).drop_first() =~= s@.skip(lo + 1));
        }
        lo = lo + 1;
    }
    proof {
        if lo < n {
            assert(s@.skip(lo as int)[0] == s@[lo as int]);
        }
        assert(trim_leading_chars(s@) =~= s@.skip(lo as int));
    }
    let ghost u = s@.skip(lo as int);
    proof {
        assert(u.take(n - lo) =~= u);
    }
    let mut hi: usize = n;
    while hi > lo && is_word_sep_exec(s.get_char(hi - 1))
        invariant
            n == s@.len(),
            0 <= lo <= hi <= n,
            u == s@.skip(lo as int),
            trim_trailing_chars(u) == trim_trailing_chars(u.take(hi - lo)),
        decreases hi,
    {
        proof {
            let t = u.take(hi - lo);
            assert(t.last() == s@[hi - 1]);
            assert(t.drop_last() =~= u.take(hi - 1 - lo));
        }
        hi = hi - 1;
    }
    proof {
        let t = u.take(hi - lo);
        if hi > lo {
            assert(t.last() == s@[hi - 1]);
        }
        assert(trim_trailing_chars(t) =~= t);
        assert(trim_chars(s@) =~= u.take(hi - lo));
        assert(s@.subrange(lo as int, hi as int) =~= u.take(hi - lo));
    }
    let sub = s.substring_char(lo, hi);
    sub.to_owned()
}

/// How often `c` occurs in `s`, assuming the count fits (it is at most the
/// length of `s`).
pub fn count_char_str(s: &str, c: char) -> (r: usize)
    ensures
        r == count_char(s@, c),
{
    let n = s.unicode_len();
    let mut i: usize = 0;
    let mut count: usize = 0;
    proof {
        assert(s@.skip(0) =~= s@);
    }
    while i < n
        invariant
            n == s@.len(),
            0 <= i <= n,
            count <= i,
            count_char(s@, c) == count + count_char(s@.skip(i as int), c),
        decreases n - i,
    {
        let ch = s.get_char(i);
        proof {
            assert(s@.skip(i as int)[0] == ch);
            assert(s@.skip(i as int).drop_first() =~= s@.skip(i + 1));
        }
        if ch == c {
            count = count + 1;
        }
        i = i + 1;
    }
    proof {
        assert(s@.skip(n as int) =~= Seq::<char>::empty());
    }
    count
}

} // verus!
