//! Line classification for the simple terminal markdown renderer: table
//! rows, table separators, code fences and their language tags. The styling
//! itself is presentation work and lives outside this library.

use vstd::prelude::*;
use vstd::string::StringExecFns;

use crate::text::count_char;
use crate::text::trim_chars;
use crate::text::trim_str;

verus! {

/// A table row: once trimmed, the line starts and ends with a pipe and
/// holds at least two pipes.
pub open spec fn spec_is_table_row(line: Seq<char>) -> bool {
    let t = trim_chars(line);
    t.len() > 0 && t[0] == '|' && t.last() == '|' && count_char(t, '|') >= 2
}

/// A table separator: once trimmed, the line starts and ends with a pipe
/// and consists only of pipes, dashes, spaces and colons.
pub open spec fn spec_is_table_separator(line: Seq<char>) -> bool {
    let t = trim_chars(line);
    &&& t.len() > 0
    &&& t[0] == '|'
    &&& t.last() == '|'
    &&& forall|i: int| 0 <= i < t.len() ==> (t[i] == '|' || t[i] == '-' || t[i] == ' ' || t[i] == ':')
}

/// A code fence: the trimmed line starts with three backticks.
pub open spec fn spec_is_code_fence(line: Seq<char>) -> bool {
    let t = trim_chars(line);
    t.len() >= 3 && t[0] == '`' && t[1] == '`' && t[2] == '`'
}

/// The language tag of a code fence: what follows the three backticks,
/// trimmed; none when the fence is bare or the line is no fence.
pub open spec fn spec_code_language(line: Seq<char>) -> Option<Seq<char>> {
    let t = trim_chars(line);
    if t.len() >= 3 && t[0] == '`' && t[1] == '`' && t[2] == '`' {
        let lang = trim_chars(t.skip(3));
        if lang.len() == 0 {
            None
        } else {
            Some(lang)
        }
    } else {
        None
    }
}

/// Whether a line is a markdown table row.
pub fn is_table_row(line: &str) -> (r: bool)
    ensures
        r == spec_is_table_row(line@),
{
    let t = trim_str(line);
    let ts = t.as_str();
    let n = ts.unicode_len();
    if n == 0 {
        return false;
    }
    let first = ts.get_char(0);
    let last = ts.get_char(n - 1);
    let pipes = crate::text::count_char_str(ts, '|');
    first == '|' && last == '|' && pipes >= 2
}

/// Whether a line is a table separator such as `|---|---|`.
pub fn is_table_separator(line: &str) -> (r: bool)
    ensures
        r == spec_is_table_separator(line@),
{
    let t = trim_str(line);
    let ts = t.as_str();
    let n = ts.unicode_len();
    if n == 0 {
        return false;
    }
    if ts.get_char(0) != '|' || ts.get_char(n - 1) != '|' {
        return false;
    }
    let mut i: usize = 0;
    while i < n
        invariant
            n == ts@.len(),
            ts@ == trim_chars(line@),
            n > 0,
            0 <= i <= n,
            forall|j: int|
                0 <= j < i ==> (ts@[j] == '|' || ts@[j] == '-' || ts@[j] == ' ' || ts@[j] == ':'),
        decreases n - i,
    {
        let c = ts.get_char(i);
        if !(c == '|' || c == '-' || c == ' ' || c == ':') {
            return false;
        }
        i = i + 1;
    }
    true
}

/// Whether a line opens or closes a fenced code block.
pub fn is_code_fence(line: &str) -> (r: bool)
    ensures
        r == spec_is_code_fence(line@),
{
    let t = trim_str(line);
    let ts = t.as_str();
    let n = ts.unicode_len();
    n >= 3 && ts.get_char(0) == '`' && ts.get_char(1) == '`' && ts.get_char(2) == '`'
}

/// The language tag of a code fence line, when it names one.
pub fn extract_code_language(line: &str) -> (r: Option<String>)
    ensures
        match spec_code_language(line@) {
            Some(lang) => r matches Some(x) && x@ == lang,
            None => r is None,
        },
{
    let t = trim_str(line);
    let ts = t.as_str();
    let n = ts.unicode_len();
    if !(n >= 3 && ts.get_char(0) == '`' && ts.get_char(1) == '`' && ts.get_char(2) == '`') {
        return None;
    }
    let tail = ts.substring_char(3, n);
    proof {
        assert(tail@ =~= ts@.skip(3));
    }
    let lang = trim_str(tail);
    if lang.as_str().unicode_len() == 0 {
        None
    } else {
        Some(lang)
    }
}

} // verus!
