//! Token counting: an approximate token count over whitespace-separated
//! words, a per-message count with a fixed role overhead, and totals over a
//! conversation.

use vstd::prelude::*;

verus! {

/// Overhead added to every message for its role formatting.
pub const ROLE_TOKENS: usize = 4;

/// A character that separates words (ASCII whitespace).
pub open spec fn is_word_sep(c: char) -> bool {
    c == ' ' || c == '\t' || c == '\n' || c == '\r' || c == '\u{b}' || c == '\u{c}'
}

/// Number of maximal runs of non-separator characters in `s`, given whether
/// the character just before `s` was a separator (or `s` is at the start).
pub open spec fn word_count_from(s: Seq<char>, prev_sep: bool) -> nat
    decreases s.len(),
{
    if s.len() == 0 {
        0
    } else {
        (if prev_sep && !is_word_sep(s[0]) {
            1nat
        } else {
            0nat
        }) + word_count_from(s.drop_first(), is_word_sep(s[0]))
    }
}

/// Number of whitespace-separated words in `s`.
pub open spec fn word_count(s: Seq<char>) -> nat {
    word_count_from(s, true)
}

/// Estimated token count of a text: 1.3 tokens per word on average, rounded
/// up, computed exactly over the integers as `(13 * words + 9) / 10`.
pub open spec fn spec_estimate_tokens(s: Seq<char>) -> nat {
    (13 * word_count(s) + 9) / 10
}

/// Token count of one message: role overhead plus the content estimate.
pub open spec fn spec_message_tokens(content: Seq<char>) -> nat {
    (ROLE_TOKENS + spec_estimate_tokens(content)) as nat
}

/// Total token count of a conversation of (role, content) pairs.
pub open spec fn spec_conversation_tokens(msgs: Seq<(String, String)>) -> nat
    decreases msgs.len(),
{
    if msgs.len() == 0 {
        0
    } else {
        spec_message_tokens(msgs[0].1@) + spec_conversation_tokens(msgs.drop_first())
    }
}

proof fn lemma_word_count_from_bound(s: Seq<char>, prev_sep: bool)
    ensures
        word_count_from(s, prev_sep) <= s.len(),
    decreases s.len(),
{
    if s.len() > 0 {
        lemma_word_count_from_bound(s.drop_first(), is_word_sep(s[0]));
    }
}

/// Approximate token count of a text, clamped to `usize`.
pub fn estimate_tokens(text: &str) -> (r: usize)
    ensures
        spec_estimate_tokens(text@) <= usize::MAX ==> r == spec_estimate_tokens(text@),
        spec_estimate_tokens(text@) > usize::MAX ==> r == usize::MAX,
{
    let n = text.unicode_len();
    let mut i: usize = 0;
    let mut prev_sep = true;
    let mut words: usize = 0;
    proof {
        assert(text@.skip(0) =~= text@);
    }
    while i < n
        invariant
            n == text@.len(),
            0 <= i <= n,
            words <= i,
            word_count(text@) == words + word_count_from(text@.skip(i as int), prev_sep),
        decreases n - i,
    {
        let c = text.get_char(i);
        proof {
            assert(text@.skip(i as int)[0] == c);
            assert(text@.skip(i as int).drop_first() =~= text@.skip(i + 1));
        }
        if prev_sep && !is_word_sep_exec(c) {
            words = words + 1;
        }
        prev_sep = is_word_sep_exec(c);
        i = i + 1;
    }
    proof {
        assert(text@.skip(n as int) =~= Seq::<char>::empty());
        lemma_word_count_from_bound(text@, true);
    }
    let wide: u128 = (13u128 * (words as u128) + 9) / 10;
    if wide <= usize::MAX as u128 {
        wide as usize
    } else {
        usize::MAX
    }
}

/// Whether `c` separates words (ASCII whitespace).
pub fn is_word_sep_exec(c: char) -> (r: bool)
    ensures
        r == is_word_sep(c),
{
    c == ' ' || c == '\t' || c == '\n' || c == '\r' || c == '\u{b}' || c == '\u{c}'
}

/// Token count of one message: role overhead plus the content estimate,
/// clamped to `usize`. The role text itself does not influence the count.
pub fn count_message_tokens(_role: &str, content: &str) -> (r: usize)
    ensures
        spec_message_tokens(content@) <= usize::MAX ==> r == spec_message_tokens(content@),
        spec_message_tokens(content@) > usize::MAX ==> r == usize::MAX,
{
    let est = estimate_tokens(content);
    if est <= usize::MAX - ROLE_TOKENS {
        est + ROLE_TOKENS
    } else {
        usize::MAX
    }
}

proof fn lemma_conversation_tokens_push(msgs: Seq<(String, String)>, m: (String, String))
    ensures
        spec_conversation_tokens(msgs.push(m)) == spec_conversation_tokens(msgs)
            + spec_message_tokens(m.1@),
    decreases msgs.len(),
{
    if msgs.len() == 0 {
        assert(msgs.push(m)[0] == m);
        assert(msgs.push(m).drop_first() =~= Seq::<(String, String)>::empty());
        assert(spec_conversation_tokens(Seq::<(String, String)>::empty()) == 0);
        assert(spec_conversation_tokens(msgs.push(m)) == spec_message_tokens(m.1@)
            + spec_conversation_tokens(msgs.push(m).drop_first()));
    } else {
        assert(msgs.push(m)[0] == msgs[0]);
        assert(msgs.push(m).drop_first() =~= msgs.drop_first().push(m));
        lemma_conversation_tokens_push(msgs.drop_first(), m);
    }
}

/// Total token count of a conversation of (role, content) pairs, clamped to
/// `usize`.
pub fn count_conversation_tokens(messages: &Vec<(String, String)>) -> (r: usize)
    ensures
        spec_conversation_tokens(messages@) <= usize::MAX ==> r == spec_conversation_tokens(
            messages@,
        ),
        spec_conversation_tokens(messages@) > usize::MAX ==> r == usize::MAX,
{
    let mut total: usize = 0;
    let mut i: usize = 0;
    while i < messages.len()
        invariant
            0 <= i <= messages@.len(),
            spec_conversation_tokens(messages@.take(i as int)) <= usize::MAX ==> total
                == spec_conversation_tokens(messages@.take(i as int)),
            spec_conversation_tokens(messages@.take(i as int)) > usize::MAX ==> total
                == usize::MAX,
        decreases messages@.len() - i,
    {
        let t = count_message_tokens(messages[i].0.as_str(), messages[i].1.as_str());
        proof {
            assert(messages@.take(i + 1) =~= messages@.take(i as int).push(messages@[i as int]));
            lemma_conversation_tokens_push(messages@.take(i as int), messages@[i as int]);
        }
        if total <= usize::MAX - t {
            total = total + t;
        } else {
            total = usize::MAX;
        }
        i = i + 1;
    }
    proof {
        assert(messages@.take(messages@.len() as int) =~= messages@);
    }
    total
}

/// Tokens left in the context window: the window size minus the tokens used,
/// never below zero.
pub fn remaining_tokens(used_tokens: usize, context_window_size: usize) -> (r: usize)
    ensures
        used_tokens <= context_window_size ==> r == context_window_size - used_tokens,
        used_tokens > context_window_size ==> r == 0,
{
    if used_tokens <= context_window_size {
        context_window_size - used_tokens
    } else {
        0
    }
}

} // verus!
