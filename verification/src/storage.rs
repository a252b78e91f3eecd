//! Conversation persistence format: rendering a message list into the
//! stored markdown-like text, parsing that text back into messages, and the
//! file names conversations and their metadata are stored under. Reading and
//! writing the files themselves is input/output and lives outside this
//! library.

use vstd::multiset::Multiset;
use vstd::prelude::*;
use vstd::string::StrSliceExecFns;
use vstd::string::StringExecFns;

use crate::models::ConversationMetadata;
use crate::models::Message;
use crate::models::MessageRole;
use crate::text::trim_chars;
use crate::text::trim_str;

verus! {

// ---- the stored conversation format ----

/// The heading text of a role.
pub open spec fn role_heading(role: MessageRole) -> Seq<char> {
    match role {
        MessageRole::User => "User"@,
        MessageRole::Assistant => "Assistant"@,
    }
}

/// One stored message block: a role heading, a blank line, the content, a
/// blank line.
pub open spec fn message_block(role: MessageRole, content: Seq<char>) -> Seq<char> {
    "## "@ + role_heading(role) + "\n\n"@ + content + "\n\n"@
}

/// The stored form of a whole conversation: the blocks in order.
pub open spec fn spec_format_conversation(msgs: Seq<Message>) -> Seq<char>
    decreases msgs.len(),
{
    if msgs.len() == 0 {
        Seq::<char>::empty()
    } else {
        message_block(msgs[0].role, msgs[0].content@) + spec_format_conversation(msgs.drop_first())
    }
}

proof fn lemma_format_push(msgs: Seq<Message>, m: Message)
    ensures
        spec_format_conversation(msgs.push(m)) == spec_format_conversation(msgs) + message_block(
            m.role,
            m.content@,
        ),
    decreases msgs.len(),
{
    if msgs.len() == 0 {
        assert(msgs.push(m)[0] == m);
        assert(msgs.push(m).drop_first() =~= Seq::<Message>::empty());
        assert(spec_format_conversation(Seq::<Message>::empty()) == Seq::<char>::empty());
        assert(Seq::<char>::empty() + message_block(m.role, m.content@) =~= message_block(
            m.role,
            m.content@,
        ));
        assert(message_block(m.role, m.content@) + Seq::<char>::empty() =~= message_block(
            m.role,
            m.content@,
        ));
    } else {
        assert(msgs.push(m)[0] == msgs[0]);
        assert(msgs.push(m).drop_first() =~= msgs.drop_first().push(m));
        lemma_format_push(msgs.drop_first(), m);
        assert((message_block(msgs[0].role, msgs[0].content@) + spec_format_conversation(
            msgs.drop_first(),
        )) + message_block(m.role, m.content@) =~= message_block(msgs[0].role, msgs[0].content@)
            + (spec_format_conversation(msgs.drop_first()) + message_block(m.role, m.content@)));
    }
}

/// Renders a conversation into its stored text form.
pub fn format_conversation(messages: &Vec<Message>) -> (r: String)
    ensures
        r@ == spec_format_conversation(messages@),
{
    let mut acc = String::new();
    let mut i: usize = 0;
    proof {
        assert(messages@.take(0) =~= Seq::<Message>::empty());
    }
    while i < messages.len()
        invariant
            0 <= i <= messages@.len(),
            acc@ == spec_format_conversation(messages@.take(i as int)),
        decreases messages@.len() - i,
    {
        let m = &messages[i];
        acc.append("## ");
        match m.role {
            MessageRole::User => acc.append("User"),
            MessageRole::Assistant => acc.append("Assistant"),
        }
        acc.append("\n\n");
        acc.append(m.content.as_str());
        acc.append("\n\n");
        proof {
            assert(messages@.take(i + 1) =~= messages@.take(i as int).push(messages@[i as int]));
            lemma_format_push(messages@.take(i as int), messages@[i as int]);
            assert(acc@ =~= spec_format_conversation(messages@.take(i as int)) + message_block(
                m.role,
                m.content@,
            ));
        }
        i = i + 1;
    }
    proof {
        assert(messages@.take(messages@.len() as int) =~= messages@);
    }
    acc
}

// ---- parsing the stored form back ----

/// Index of the first occurrence of `c` in `s`, or `s.len()` when none.
pub open spec fn find_char(s: Seq<char>, c: char) -> int
    decreases s.len(),
{
    if s.len() == 0 {
        0
    } else if s[0] == c {
        0
    } else {
        1 + find_char(s.drop_first(), c)
    }
}

proof fn lemma_find_char(s: Seq<char>, c: char)
    ensures
        0 <= find_char(s, c) <= s.len(),
        find_char(s, c) < s.len() ==> s[find_char(s, c)] == c,
        forall|j: int| 0 <= j < find_char(s, c) ==> s[j] != c,
    decreases s.len(),
{
    if s.len() > 0 && s[0] != c {
        lemma_find_char(s.drop_first(), c);
        assert forall|j: int| 0 <= j < find_char(s, c) implies s[j] != c by {
            if j > 0 {
                assert(s.drop_first()[j - 1] == s[j]);
            }
        }
    }
}

/// Whether the section separator `## ` starts at position `i` of `s`.
pub open spec fn is_sep_at(s: Seq<char>, i: int) -> bool {
    &&& 0 <= i
    &&& i + 3 <= s.len()
    &&& s[i] == '#'
    &&& s[i + 1] == '#'
    &&& s[i + 2] == ' '
}

/// Position of the first section separator in `s`, or `s.len()` when none.
pub open spec fn find_sep(s: Seq<char>) -> int
    decreases s.len(),
{
    if s.len() == 0 {
        0
    } else if is_sep_at(s, 0) {
        0
    } else {
        1 + find_sep(s.drop_first())
    }
}

proof fn lemma_find_sep(s: Seq<char>)
    ensures
        0 <= find_sep(s) <= s.len(),
        find_sep(s) < s.len() ==> is_sep_at(s, find_sep(s)),
        forall|j: int| 0 <= j < find_sep(s) ==> !is_sep_at(s, j),
    decreases s.len(),
{
    if s.len() > 0 && !is_sep_at(s, 0) {
        lemma_find_sep(s.drop_first());
        let f = find_sep(s);
        if f < s.len() {
            assert(s.drop_first()[f - 1] == s[f]);
            assert(s.drop_first()[f] == s[f + 1]);
            assert(s.drop_first()[f + 1] == s[f + 2]);
        }
        assert forall|j: int| 0 <= j < find_sep(s) implies !is_sep_at(s, j) by {
            if j > 0 {
                if is_sep_at(s, j) {
                    assert(s.drop_first()[j - 1] == s[j]);
                    assert(s.drop_first()[j] == s[j + 1]);
                    assert(s.drop_first()[j + 1] == s[j + 2]);
                    assert(is_sep_at(s.drop_first(), j - 1));
                }
            }
        }
    }
}

/// The text split at every section separator, the separators removed. The
/// first element is what precedes the first separator.
pub open spec fn split_sections(s: Seq<char>) -> Seq<Seq<char>>
    decreases s.len(),
    via split_sections_decreases
{
    let f = find_sep(s);
    if f < s.len() {
        seq![s.take(f)] + split_sections(s.skip(f + 3))
    } else {
        seq![s]
    }
}

#[via_fn]
proof fn split_sections_decreases(s: Seq<char>) {
    lemma_find_sep(s);
}

/// The message one section yields: the first line names the role (`User`
/// once trimmed, anything else is the assistant), the rest is the content,
/// trimmed. A section without a line break yields nothing.
pub open spec fn section_message(sec: Seq<char>) -> Option<(MessageRole, Seq<char>)> {
    let j = find_char(sec, '\n');
    if j >= sec.len() {
        None
    } else {
        let role = if trim_chars(sec.take(j)) == "User"@ {
            MessageRole::User
        } else {
            MessageRole::Assistant
        };
        Some((role, trim_chars(sec.skip(j + 1))))
    }
}

/// The messages a section list yields, in order.
pub open spec fn messages_of_sections(secs: Seq<Seq<char>>) -> Seq<(MessageRole, Seq<char>)>
    decreases secs.len(),
{
    if secs.len() == 0 {
        Seq::<(MessageRole, Seq<char>)>::empty()
    } else {
        match section_message(secs[0]) {
            Some(m) => seq![m] + messages_of_sections(secs.drop_first()),
            None => messages_of_sections(secs.drop_first()),
        }
    }
}

/// The messages stored in a conversation text: every section after the
/// first separator, parsed.
pub open spec fn conversation_messages(s: Seq<char>) -> Seq<(MessageRole, Seq<char>)> {
    messages_of_sections(split_sections(s).drop_first())
}

/// Splits the stored text at every section separator.
fn split_sections_exec(s: &str) -> (out: Vec<String>)
    ensures
        out@.map_values(|x: String| x@) == split_sections(s@),
{
    let n = s.unicode_len();
    let mut out: Vec<String> = Vec::new();
    let mut start: usize = 0;
    proof {
        assert(s@.skip(0) =~= s@);
        assert(out@.map_values(|x: String| x@) =~= Seq::<Seq<char>>::empty());
        assert(Seq::<Seq<char>>::empty() + split_sections(s@) =~= split_sections(s@));
    }
    loop
        invariant
            n == s@.len(),
            0 <= start <= n,
            split_sections(s@) == out@.map_values(|x: String| x@) + split_sections(
                s@.skip(start as int),
            ),
        ensures
            out@.map_values(|x: String| x@) == split_sections(s@),
        decreases n - start,
    {
        let ghost suffix = s@.skip(start as int);
        let mut j: usize = start;
        while n - j >= 3 && !(s.get_char(j) == '#' && s.get_char(j + 1) == '#' && s.get_char(
            j + 2,
        ) == ' ')
            invariant
                n == s@.len(),
                start <= j <= n,
                forall|m: int| start <= m < j ==> !is_sep_at(s@, m),
            decreases n - j,
        {
            j = j + 1;
        }
        proof {
            lemma_find_sep(suffix);
            assert forall|m: int| 0 <= m < suffix.len() implies (is_sep_at(suffix, m) <==> is_sep_at(
                s@,
                start + m,
            )) by {
                if m + 3 <= suffix.len() {
                    assert(suffix[m] == s@[start + m]);
                    if m + 1 < suffix.len() {
                        assert(suffix[m + 1] == s@[start + m + 1]);
                    }
                    if m + 2 < suffix.len() {
                        assert(suffix[m + 2] == s@[start + m + 2]);
                    }
                }
            }
        }
        if n - j >= 3 {
            // a separator starts at j
            proof {
                assert(is_sep_at(s@, j as int));
                assert(is_sep_at(suffix, j - start));
                assert(find_sep(suffix) == j - start) by {
                    if find_sep(suffix) < j - start {
                        assert(is_sep_at(suffix, find_sep(suffix)));
                        assert(!is_sep_at(s@, start + find_sep(suffix)));
                    }
                    if find_sep(suffix) > j - start {
                        assert(!is_sep_at(suffix, j - start));
                    }
                }
            }
            let piece = s.substring_char(start, j).to_owned();
            proof {
                assert(piece@ =~= suffix.take(j - start));
                assert(suffix.skip(j - start + 3) =~= s@.skip(j + 3));
                let f = out@.map_values(|x: String| x@);
                assert(out@.push(piece).map_values(|x: String| x@) =~= f.push(piece@));
                assert((f + (seq![suffix.take(j - start)] + split_sections(s@.skip(j + 3))))
                    =~= (f.push(piece@) + split_sections(s@.skip(j + 3))));
            }
            out.push(piece);
            start = j + 3;
        } else {
            // no separator remains
            proof {
                assert forall|m: int| 0 <= m < suffix.len() implies !is_sep_at(suffix, m) by {
                    if start + m < j {
                        assert(!is_sep_at(s@, start + m));
                    } else {
                        assert(start + m + 3 > n);
                    }
                }
                assert(find_sep(suffix) == suffix.len()) by {
                    if find_sep(suffix) < suffix.len() {
                        assert(is_sep_at(suffix, find_sep(suffix)));
                    }
                }
            }
            let piece = s.substring_char(start, n).to_owned();
            proof {
                assert(piece@ =~= suffix);
                let f = out@.map_values(|x: String| x@);
                assert(out@.push(piece).map_values(|x: String| x@) =~= f.push(piece@));
                assert(f + seq![suffix] =~= f.push(piece@));
            }
            out.push(piece);
            return out;
        }
    }
}

impl Storage {
    /// Parses a stored conversation text back into its messages. Token
    /// counts are left at zero, to be recomputed by the token counter.
    pub fn parse_conversation(content: &str) -> (out: Vec<Message>)
    ensures
        out@.len() == conversation_messages(content@).len(),
        forall|i: int|
            0 <= i < out@.len() ==> {
                &&& (#[trigger] out@[i]).role == conversation_messages(content@)[i].0
                &&& out@[i].content@ == conversation_messages(content@)[i].1
                &&& out@[i].tokens == 0
            },
{
    let sections = split_sections_exec(content);
    let ghost secs = sections@.map_values(|x: String| x@);
    let mut out: Vec<Message> = Vec::new();
    let mut i: usize = 1;
    proof {
        assert(out@.map_values(|m: Message| (m.role, m.content@)) =~= Seq::<
            (MessageRole, Seq<char>),
        >::empty());
        assert(secs.skip(1) =~= split_sections(content@).drop_first());
        assert(Seq::<(MessageRole, Seq<char>)>::empty() + messages_of_sections(secs.skip(1))
            =~= messages_of_sections(secs.skip(1)));
    }
    while i < sections.len()
        invariant
            1 <= i <= sections@.len() || (sections@.len() == 0 && i == 1),
            secs == sections@.map_values(|x: String| x@),
            conversation_messages(content@) == messages_of_sections(secs.skip(1)),
            messages_of_sections(secs.skip(1)) == out@.map_values(|m: Message| (m.role, m.content@))
                + messages_of_sections(secs.skip(i as int)),
            forall|k: int| 0 <= k < out@.len() ==> (#[trigger] out@[k]).tokens == 0,
        decreases sections@.len() - i,
    {
        let sec = sections[i].as_str();
        let ghost sv = secs[i as int];
        proof {
            assert(sv == sec@);
            assert(secs.skip(i as int)[0] == sv);
            assert(secs.skip(i as int).drop_first() =~= secs.skip(i + 1));
            lemma_find_char(sv, '\n');
        }
        let ln = sec.unicode_len();
        let mut j: usize = 0;
        while j < ln && sec.get_char(j) != '\n'
            invariant
                ln == sv.len(),
                sv == sec@,
                0 <= j <= ln,
                forall|m: int| 0 <= m < j ==> sv[m] != '\n',
            decreases ln - j,
        {
            j = j + 1;
        }
        proof {
            assert(find_char(sv, '\n') == j) by {
                lemma_find_char(sv, '\n');
                if find_char(sv, '\n') < j {
                    assert(sv[find_char(sv, '\n')] == '\n');
                }
                if j < ln && find_char(sv, '\n') > j {
                    assert(sv[j as int] == '\n');
                }
            }
        }
        if j < ln {
            let role_line = sec.substring_char(0, j);
            let body = sec.substring_char(j + 1, ln);
            proof {
                assert(role_line@ =~= sv.take(j as int));
                assert(body@ =~= sv.skip(j + 1));
            }
            let role_trimmed = trim_str(role_line);
            let user = String::from_str("User");
            let role = if role_trimmed == user {
                MessageRole::User
            } else {
                MessageRole::Assistant
            };
            let msg_content = trim_str(body);
            let m = Message::new(role, msg_content, 0);
            let ghost prev = out@.map_values(|mm: Message| (mm.role, mm.content@));
            out.push(m);
            proof {
                assert(out@.map_values(|mm: Message| (mm.role, mm.content@)) =~= prev.push(
                    (role, trim_chars(sv.skip(j + 1))),
                ));
                assert(seq![(role, trim_chars(sv.skip(j + 1)))] + messages_of_sections(
                    secs.skip(i + 1),
                ) =~= messages_of_sections(secs.skip(i + 1)).insert(
                    0,
                    (role, trim_chars(sv.skip(j + 1))),
                ));
                assert(prev + (seq![(role, trim_chars(sv.skip(j + 1)))] + messages_of_sections(
                    secs.skip(i + 1),
                )) =~= prev.push((role, trim_chars(sv.skip(j + 1)))) + messages_of_sections(
                    secs.skip(i + 1),
                ));
            }
        } else {
            proof {
                assert(section_message(sv) is None);
            }
        }
        i = i + 1;
    }
    proof {
        if sections@.len() > 0 {
            assert(secs.skip(sections@.len() as int) =~= Seq::<Seq<char>>::empty());
            assert(messages_of_sections(Seq::<Seq<char>>::empty()) =~= Seq::<
                (MessageRole, Seq<char>),
            >::empty());
            assert(out@.map_values(|m: Message| (m.role, m.content@)) + Seq::<
                (MessageRole, Seq<char>),
            >::empty() =~= out@.map_values(|m: Message| (m.role, m.content@)));
        } else {
            assert(split_sections(content@).len() > 0);
            assert(secs.len() == split_sections(content@).len());
        }
        let ms = conversation_messages(content@);
        let f = out@.map_values(|m: Message| (m.role, m.content@));
        assert(ms == f);
        assert(out@.len() == f.len());
        assert forall|k: int| 0 <= k < out@.len() implies (#[trigger] out@[k]).role == ms[k].0
            && out@[k].content@ == ms[k].1 by {
            assert(f[k] == (out@[k].role, out@[k].content@));
        }
    }
        out
    }
}

// ---- file names ----

/// The hexadecimal digit of a value below sixteen.
pub open spec fn hex_char(n: int) -> char {
    if n == 0 {
        '0'
    } else if n == 1 {
        '1'
    } else if n == 2 {
        '2'
    } else if n == 3 {
        '3'
    } else if n == 4 {
        '4'
    } else if n == 5 {
        '5'
    } else if n == 6 {
        '6'
    } else if n == 7 {
        '7'
    } else if n == 8 {
        '8'
    } else if n == 9 {
        '9'
    } else if n == 10 {
        'a'
    } else if n == 11 {
        'b'
    } else if n == 12 {
        'c'
    } else if n == 13 {
        'd'
    } else if n == 14 {
        'e'
    } else {
        'f'
    }
}

/// The `i`-th hexadecimal digit of a 128-bit identifier, most significant
/// first.
pub open spec fn uuid_nibble(id: u128, i: int) -> u128 {
    (id >> (((31 - i) * 4) as u128)) & 0xf
}

/// The canonical hyphenated text form of a 128-bit identifier: 32 lowercase
/// hexadecimal digits in five dash-separated groups of 8, 4, 4, 4 and 12.
pub open spec fn uuid_chars(id: u128) -> Seq<char> {
    let d = Seq::new(32nat, |i: int| hex_char(uuid_nibble(id, i) as int));
    d.subrange(0, 8) + seq!['-'] + d.subrange(8, 12) + seq!['-'] + d.subrange(12, 16) + seq!['-']
        + d.subrange(16, 20) + seq!['-'] + d.subrange(20, 32)
}

fn hex_char_exec(n: u8) -> (c: char)
    requires
        n < 16,
    ensures
        c == hex_char(n as int),
{
    if n == 0 {
        '0'
    } else if n == 1 {
        '1'
    } else if n == 2 {
        '2'
    } else if n == 3 {
        '3'
    } else if n == 4 {
        '4'
    } else if n == 5 {
        '5'
    } else if n == 6 {
        '6'
    } else if n == 7 {
        '7'
    } else if n == 8 {
        '8'
    } else if n == 9 {
        '9'
    } else if n == 10 {
        'a'
    } else if n == 11 {
        'b'
    } else if n == 12 {
        'c'
    } else if n == 13 {
        'd'
    } else if n == 14 {
        'e'
    } else {
        'f'
    }
}

/// Renders a 128-bit identifier in its canonical hyphenated form.
pub fn uuid_hyphenated(id: u128) -> (r: String)
    ensures
        r@ == uuid_chars(id),
{
    let ghost d = Seq::new(32nat, |i: int| hex_char(uuid_nibble(id, i) as int));
    let mut r = String::new();
    let mut i: usize = 0;
    while i < 32
        invariant
            0 <= i <= 32,
            d == Seq::new(32nat, |k: int| hex_char(uuid_nibble(id, k) as int)),
            r@.len() == i + (if i > 20 {
                4int
            } else if i > 16 {
                3int
            } else if i > 12 {
                2int
            } else if i > 8 {
                1int
            } else {
                0int
            }),
            r@ == uuid_chars(id).take(r@.len() as int),
        decreases 32 - i,
    {
        if i == 8 || i == 12 || i == 16 || i == 20 {
            crate::text::push_char(&mut r, '-');
            proof {
                assert(uuid_chars(id).take(r@.len() as int) =~= uuid_chars(id).take(
                    r@.len() - 1,
                ).push(uuid_chars(id)[r@.len() - 1]));
                assert(uuid_chars(id)[r@.len() - 1] == '-');
            }
        }
        let sh: u128 = ((31 - (i as u128)) * 4);
        let nibble_wide: u128 = (id >> sh) & 0xf;
        proof {
            assert((id >> sh) & 0xf < 16) by (bit_vector);
        }
        let nib: u8 = nibble_wide as u8;
        let c = hex_char_exec(nib);
        proof {
            assert(nibble_wide == uuid_nibble(id, i as int));
            assert(c == d[i as int]);
            assert(uuid_chars(id)[r@.len() as int] == d[i as int]);
        }
        crate::text::push_char(&mut r, c);
        proof {
            assert(uuid_chars(id).take(r@.len() as int) =~= uuid_chars(id).take(
                r@.len() - 1,
            ).push(uuid_chars(id)[r@.len() - 1]));
        }
        i = i + 1;
    }
    proof {
        assert(uuid_chars(id).take(36) =~= uuid_chars(id));
    }
    r
}

// ---- ordering the conversation listing ----

/// Newest-first order by last update.
pub open spec fn sorted_by_updated_desc(s: Seq<ConversationMetadata>) -> bool {
    forall|i: int, j: int| 0 <= i < j < s.len() ==> s[i].updated_at >= s[j].updated_at
}

/// Orders conversations most recently updated first, keeping exactly the
/// same conversations.
pub fn sort_by_updated_desc(convs: Vec<ConversationMetadata>) -> (out: Vec<ConversationMetadata>)
    ensures
        sorted_by_updated_desc(out@),
        out@.to_multiset() == convs@.to_multiset(),
{
    broadcast use vstd::seq_lib::group_to_multiset_ensures;
    broadcast use vstd::multiset::group_multiset_axioms;

    let mut rest = convs;
    let mut out: Vec<ConversationMetadata> = Vec::new();
    let ghost whole = rest@.to_multiset();
    proof {
        assert(out@.to_multiset().add(rest@.to_multiset()) =~= whole);
    }
    while rest.len() > 0
        invariant
            out@.to_multiset().add(rest@.to_multiset()) == whole,
            sorted_by_updated_desc(out@),
            forall|i: int, j: int|
                0 <= i < out@.len() && 0 <= j < rest@.len() ==> out@[i].updated_at
                    >= rest@[j].updated_at,
        decreases rest@.len(),
    {
        let mut best: usize = 0;
        let mut m: usize = 1;
        while m < rest.len()
            invariant
                rest@.len() > 0,
                0 <= best < rest@.len(),
                1 <= m <= rest@.len(),
                forall|j: int| 0 <= j < m ==> rest@[best as int].updated_at >= rest@[j].updated_at,
            decreases rest@.len() - m,
        {
            if rest[m].updated_at > rest[best].updated_at {
                best = m;
            }
            m = m + 1;
        }
        let ghost rest_before = rest@;
        let ghost out_before = out@;
        let x = rest.remove(best);
        proof {
            assert(rest@ =~= rest_before.remove(best as int));
        }
        out.push(x);
        proof {
            broadcast use vstd::seq_lib::group_to_multiset_ensures;
            broadcast use vstd::multiset::group_multiset_axioms;

            assert(out@ =~= out_before.push(x));
            assert(x == rest_before[best as int]);
            assert(rest_before.contains(x));
            assert(rest_before.to_multiset().count(x) > 0);
            assert(out_before.push(x).to_multiset() =~= out_before.to_multiset().insert(x));
            assert(out@.to_multiset() == out_before.push(x).to_multiset());
            assert(rest_before.remove(best as int).to_multiset() =~= rest_before.to_multiset().remove(
                x,
            ));
            assert(rest@.to_multiset() == rest_before.remove(best as int).to_multiset());
            assert(out@.to_multiset().add(rest@.to_multiset()) =~= whole);
            assert forall|i: int, j: int|
                0 <= i < out@.len() && 0 <= j < rest@.len() implies out@[i].updated_at
                >= rest@[j].updated_at by {
                if j < best {
                    assert(rest@[j] == rest_before[j]);
                } else {
                    assert(rest@[j] == rest_before[j + 1]);
                }
                if i < out@.len() - 1 {
                    assert(out@[i] == out_before[i]);
                }
            }
        }
    }
    proof {
        broadcast use vstd::seq_lib::group_to_multiset_ensures;
        broadcast use vstd::multiset::group_multiset_axioms;

        assert(rest@ =~= Seq::<ConversationMetadata>::empty());
        assert(rest@.to_multiset().len() == 0);
        assert(rest@.to_multiset() =~= Multiset::<ConversationMetadata>::empty());
        assert(out@.to_multiset().add(rest@.to_multiset()) =~= out@.to_multiset());
    }
    out
}

/// Where conversations and their metadata are stored: the configuration
/// directory and its `chats` subdirectory.
#[derive(Debug, Clone)]
pub struct Storage {
    pub config_dir: String,
    pub chats_dir: String,
}

impl Storage {
    /// A storage rooted at an already-created configuration directory.
    pub fn from_config_dir(config_dir: String) -> (s: Storage)
        ensures
            s.config_dir@ == config_dir@,
            s.chats_dir@ == config_dir@ + "/chats"@,
    {
        let mut chats = config_dir.clone();
        chats.append("/chats");
        Storage { config_dir, chats_dir: chats }
    }

    /// The file a conversation is stored in.
    pub fn get_conversation_path(&self, id: u128) -> (r: String)
        ensures
            r@ == self.chats_dir@ + "/"@ + uuid_chars(id) + ".md"@,
    {
        let mut p = self.chats_dir.clone();
        p.append("/");
        let u = uuid_hyphenated(id);
        p.append(u.as_str());
        p.append(".md");
        p
    }

    /// The file a conversation's metadata is stored in.
    pub fn get_metadata_path(&self, id: u128) -> (r: String)
        ensures
            r@ == self.chats_dir@ + "/"@ + uuid_chars(id) + "_meta.json"@,
    {
        let mut p = self.chats_dir.clone();
        p.append("/");
        let u = uuid_hyphenated(id);
        p.append(u.as_str());
        p.append("_meta.json");
        p
    }
}

} // verus!
