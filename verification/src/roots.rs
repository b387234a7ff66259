//! The keys whose capability chains a host accepts besides its own.

use vstd::prelude::*;

use crate::digest::parse_node_id;
use crate::text::{chars_of, trim};

verus! {

/// The place of the first `c` in `s`, or the length of `s` if there is none.
pub open spec fn first_at(s: Seq<char>, c: char) -> int
    decreases s.len(),
{
    if s.len() == 0 || s[0] == c {
        0
    } else {
        1 + first_at(s.drop_first(), c)
    }
}

/// The key on a line: a node id, with white space around it and a comment behind it allowed.
pub open spec fn key_on(line: Seq<char>) -> Option<Seq<u8>> {
    crate::digest::node_id(crate::text::trimmed(line.take(first_at(line, '#'))))
}

/// The keys in a text, one per line. A line without a key is passed over.
pub open spec fn keys_in(text: Seq<char>) -> Seq<Seq<u8>>
    decreases text.len(),
{
    if text.len() == 0 {
        Seq::empty()
    } else {
        proof {
            lemma_first_at(text, '\n');
        }
        let end = first_at(text, '\n');
        let rest = if end < text.len() {
            keys_in(text.skip(end + 1))
        } else {
            Seq::empty()
        };
        match key_on(text.take(end)) {
            Some(key) => seq![key] + rest,
            None => rest,
        }
    }
}

/// The first `c` is at its place, and none comes before.
pub proof fn lemma_first_at(s: Seq<char>, c: char)
    ensures
        0 <= first_at(s, c) <= s.len(),
        forall|i: int| 0 <= i < first_at(s, c) ==> s[i] != c,
        first_at(s, c) < s.len() ==> s[first_at(s, c)] == c,
    decreases s.len(),
{
    if s.len() > 0 && s[0] != c {
        lemma_first_at(s.drop_first(), c);
        assert forall|i: int| 0 <= i < first_at(s, c) implies s[i] != c by {
            if i > 0 {
                assert(s[i] == s.drop_first()[i - 1]);
            }
        }
    }
}

/// The first `c` is at `n` if it is there, or the end is, and none comes before.
proof fn lemma_first_at_is(s: Seq<char>, c: char, n: int)
    requires
        0 <= n <= s.len(),
        forall|i: int| 0 <= i < n ==> s[i] != c,
        n < s.len() ==> s[n] == c,
    ensures
        first_at(s, c) == n,
{
    lemma_first_at(s, c);
    if first_at(s, c) < n {
        assert(s[first_at(s, c)] == c);
    }
}

/// Reads the keys that a host accepts from the text of its roots file: 64 hexadecimal digits per
/// line, with `#` comments. Without a file there are none, and only the chains of the host itself
/// are honored.
pub fn load_roots(text: Option<&str>) -> (r: Vec<[u8; 32]>)
    ensures
        r@.map_values(|key: [u8; 32]| key@) == (match text {
            Some(t) => keys_in(t@),
            None => Seq::empty(),
        }),
{
    let ghost view = |key: [u8; 32]| key@;
    let mut out: Vec<[u8; 32]> = Vec::new();
    assert(out@.map_values(view) =~= Seq::<Seq<u8>>::empty());
    let content = match text {
        Some(t) => t,
        None => {
            return out;
        },
    };
    let chars = chars_of(content);
    let n: usize = chars.len();
    let ghost s = content@;
    let mut start: usize = 0;
    assert(s.skip(0) =~= s);
    assert(out@.map_values(view) + keys_in(s) =~= keys_in(s));
    while start < n
        invariant
            start <= n,
            n == s.len(),
            s == content@,
            text == Some(content),
            chars@ == s,
            view == (|key: [u8; 32]| key@),
            out@.map_values(view) + keys_in(s.skip(start as int)) == keys_in(s),
        decreases n - start,
    {
        let ghost rest = s.skip(start as int);
        let mut end: usize = start;
        while end < n && chars[end] != '\n'
            invariant
                start <= end <= n,
                n == s.len(),
                chars@ == s,
                forall|i: int| start <= i < end ==> s[i] != '\n',
            decreases n - end,
        {
            end += 1;
        }
        let mut cut: usize = start;
        while cut < end && chars[cut] != '#'
            invariant
                start <= cut <= end <= n,
                n == s.len(),
                chars@ == s,
                forall|i: int| start <= i < cut ==> s[i] != '#',
            decreases end - cut,
        {
            cut += 1;
        }
        let ghost line = rest.take(end - start);
        proof {
            lemma_first_at_is(rest, '\n', end - start);
            lemma_first_at_is(line, '#', cut - start);
            assert(line.take(cut - start) =~= s.subrange(start as int, cut as int));
        }
        let key = parse_node_id(trim(content.substring_char(start, cut)));
        let ghost before = out@;
        if let Some(id) = key {
            out.push(id);
            assert(out@.map_values(view) =~= before.map_values(view).push(id@));
        }
        if end == n {
            proof {
                assert(out@.map_values(view) =~= before.map_values(view) + keys_in(rest));
            }
            return out;
        }
        proof {
            assert(rest.skip(end - start + 1) =~= s.skip(end + 1));
            assert(out@.map_values(view) + keys_in(s.skip(end + 1)) =~= before.map_values(view)
                + keys_in(rest));
        }
        start = end + 1;
    }
    assert(keys_in(s.skip(start as int)) =~= Seq::<Seq<u8>>::empty());
    assert(out@.map_values(view) + Seq::<Seq<u8>>::empty() =~= out@.map_values(view));
    out
}

/// What follows a `#` on a line does not matter.
pub proof fn law_comments_do_not_matter(line: Seq<char>, comment: Seq<char>)
    requires
        !line.contains('#'),
    ensures
        key_on(line + seq!['#'] + comment) == key_on(line),
{
    let full = line + seq!['#'] + comment;
    assert forall|i: int| 0 <= i < line.len() implies line[i] != '#' && full[i] != '#' by {
        if line[i] == '#' {
            assert(line.contains('#'));
        }
        assert(full[i] == line[i]);
    }
    lemma_first_at_is(line, '#', line.len() as int);
    assert(full[line.len() as int] == '#');
    lemma_first_at_is(full, '#', line.len() as int);
    assert(full.take(line.len() as int) =~= line);
    assert(line.take(line.len() as int) =~= line);
}

/// Lines are read one by one: the key on the first line, if there is one, and then the keys on the
/// lines after it.
pub proof fn law_lines_are_independent(line: Seq<char>, rest: Seq<char>)
    requires
        !line.contains('\n'),
    ensures
        keys_in(line + seq!['\n'] + rest) == (match key_on(line) {
            Some(key) => seq![key] + keys_in(rest),
            None => keys_in(rest),
        }),
{
    let full = line + seq!['\n'] + rest;
    assert forall|i: int| 0 <= i < line.len() implies full[i] != '\n' by {
        if line[i] == '\n' {
            assert(line.contains('\n'));
        }
        assert(full[i] == line[i]);
    }
    assert(full[line.len() as int] == '\n');
    lemma_first_at_is(full, '\n', line.len() as int);
    assert(full.take(line.len() as int) =~= line);
    assert(full.skip(line.len() as int + 1) =~= rest);
}

/// The key on a line without a comment is the node id that the line is, white space around it
/// dropped.
pub proof fn law_a_line_is_one_key(line: Seq<char>)
    requires
        !line.contains('#'),
    ensures
        key_on(line) == crate::digest::node_id(crate::text::trimmed(line)),
{
    assert forall|i: int| 0 <= i < line.len() implies line[i] != '#' by {
        if line[i] == '#' {
            assert(line.contains('#'));
        }
    }
    lemma_first_at_is(line, '#', line.len() as int);
    assert(line.take(line.len() as int) =~= line);
}

/// A key written in hexadecimal is read back, whatever white space is around it.
pub proof fn law_keys_read_back(before: Seq<char>, key: Seq<u8>, after: Seq<char>)
    requires
        key.len() == 32,
        forall|i: int|
            0 <= i < before.len() ==> crate::text::white_space(#[trigger] before[i]),
        forall|i: int| 0 <= i < after.len() ==> crate::text::white_space(#[trigger] after[i]),
    ensures
        key_on(before + crate::digest::hex_encoded(key) + after) == Some(key),
{
    let text = crate::digest::hex_encoded(key);
    let line = before + text + after;
    crate::digest::law_hex_length(key);
    crate::digest::law_hex_round_trip(key);
    assert forall|i: int| 0 <= i < text.len() implies crate::digest::hex_value(
        #[trigger] text[i],
    ) is Some by {
        crate::digest::law_hexadecimal_texts(text);
    }
    assert(!line.contains('#')) by {
        if line.contains('#') {
            let i = line.index_of('#');
            if i < before.len() {
                assert(crate::text::white_space(before[i]));
            } else if i < before.len() + text.len() {
                assert(crate::digest::hex_value(text[i - before.len()]) is Some);
            } else {
                assert(crate::text::white_space(after[i - before.len() - text.len()]));
            }
        }
    }
    assert(crate::digest::hex_value(text[0]) is Some);
    assert(crate::digest::hex_value(text[63]) is Some);
    crate::text::law_padding_is_trimmed(before, text, after);
    law_a_line_is_one_key(line);
}

/// The last line needs no line break behind it, and an empty text holds no keys.
pub proof fn law_last_line_counts(line: Seq<char>)
    requires
        !line.contains('\n'),
    ensures
        key_on(line) matches Some(key) ==> keys_in(line) == seq![key],
        key_on(line) is None ==> keys_in(line).len() == 0,
        keys_in(Seq::<char>::empty()).len() == 0,
{
    assert forall|i: int| 0 <= i < line.len() implies line[i] != '\n' by {
        if line[i] == '\n' {
            assert(line.contains('\n'));
        }
    }
    lemma_first_at_is(line, '\n', line.len() as int);
    assert(line.take(line.len() as int) =~= line);
    if line.len() == 0 {
        lemma_first_at_is(line, '#', 0);
        assert(line.take(0) =~= Seq::<char>::empty());
        crate::text::law_blank_texts_are_white_space(line);
        crate::digest::law_hexadecimal_texts(crate::text::trimmed(line));
    }
    if let Some(key) = key_on(line) {
        assert(seq![key] + Seq::<Seq<u8>>::empty() =~= seq![key]);
    }
}

} // verus!
