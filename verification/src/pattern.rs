//! Regular expressions, and the text that they capture from a line.

use regex::Regex;
use vstd::prelude::*;
use vstd::string::*;
#[allow(unused_imports)]
use vstd::utf8::*;

use crate::ansi::strip_ansi;
#[allow(unused_imports)]
use crate::ansi::{law_strip_twice, law_stripped_is_plain, stripped};
use crate::text::{blank, lines};
#[allow(unused_imports)]
use crate::text::{
    bytes_of, is_blank, is_white_space, lemma_encode_ascii_member, lemma_str_view, lines_of,
};
use std::borrow::Cow;

verus! {

/// A compiled regular expression of the crate `regex`.
#[verifier::external_type_specification]
#[verifier::external_body]
pub struct ExRegex(regex::Regex);

/// The message with which `regex::Regex::new` refuses `source`, none where it
/// compiles it. The crate bounds the memory of a compiled expression, so for an
/// expression near that bound the name speaks of machines of one word size.
pub uninterp spec fn regex_error(source: Seq<char>) -> Option<Seq<char>>;

/// What `regex::Regex::captures` finds in `text` with the expression compiled
/// from `source`: none without a match, else the text of each capture group, by
/// its number, where group 0 is the whole match.
pub uninterp spec fn regex_captures(source: Seq<char>, text: Seq<char>) -> Option<
    Seq<Option<Seq<char>>>,
>;

/// A regular expression and the text it was compiled from, which is its view.
pub struct Pattern {
    source: String,
    regex: Regex,
}

/// Why a pattern was refused.
#[derive(Debug)]
pub struct PatternError {
    pub message: String,
}

impl View for Pattern {
    type V = Seq<char>;

    closed spec fn view(&self) -> Seq<char> {
        self.source@
    }
}

/// The characters of an optional string.
pub open spec fn opt_view(s: Option<String>) -> Option<Seq<char>> {
    match s {
        Some(s) => Some(s@),
        None => None,
    }
}

/// The characters of the capture groups.
pub open spec fn groups_view(groups: Option<Vec<Option<String>>>) -> Option<
    Seq<Option<Seq<char>>>,
> {
    match groups {
        Some(g) => Some(Seq::new(g@.len(), |i: int| opt_view(g@[i]))),
        None => None,
    }
}

/// `part` is a stretch of `text`.
pub open spec fn is_part_of(part: Seq<char>, text: Seq<char>) -> bool {
    exists|a: int, b: int| 0 <= a <= b <= text.len() && part == #[trigger] text.subrange(a, b)
}

/// Calls `regex::Regex::new` and keeps the text beside the compiled expression.
/// Claimed: it fails exactly on the texts for which `regex_error` has a message,
/// and with that message. The fields of `Pattern` are private and set nowhere
/// else, so a pattern's expression is always the one compiled from its text.
#[verifier::external_body]
fn compile(source: &str) -> (r: Result<Pattern, String>)
    ensures
        match r {
            Ok(p) => regex_error(source@) is None && p@ == source@,
            Err(m) => regex_error(source@) == Some(m@),
        },
{
    match Regex::new(source) {
        Ok(regex) => Ok(Pattern { source: source.to_string(), regex }),
        Err(e) => Err(e.to_string()),
    }
}

/// Calls `regex::Regex::captures` and copies out the text of each group, none for
/// a group that took no part in the match. Claimed: the result is the one that
/// `regex_captures` names for the pattern's text and `text`; where there is a
/// match, group 0 is present; and each captured text is a stretch of `text`.
#[verifier::external_body]
fn captures(re: &Pattern, text: &str) -> (groups: Option<Vec<Option<String>>>)
    ensures
        groups_view(groups) == regex_captures(re@, text@),
        groups matches Some(g) ==> g@.len() > 0 && g@[0] is Some,
        groups matches Some(g) ==> forall|i: int|
            0 <= i < g@.len() && (#[trigger] g@[i]) is Some ==> is_part_of(g@[i]->0@, text@),
{
    re.regex.captures(text).map(
        |caps| caps.iter().map(|m| m.map(|m| m.as_str().to_string())).collect(),
    )
}

impl Pattern {
    /// Compiles `source`.
    pub fn new(source: &str) -> (r: Result<Pattern, PatternError>)
        ensures
            match r {
                Ok(p) => regex_error(source@) is None && p@ == source@,
                Err(e) => regex_error(source@) == Some(e.message@),
            },
    {
        match compile(source) {
            Ok(p) => Ok(p),
            Err(message) => Err(PatternError { message }),
        }
    }
}

/// The key among capture groups: group 1, or the whole match where there is no
/// group 1 or it took no part in the match.
pub open spec fn key_of_groups(groups: Option<Seq<Option<Seq<char>>>>) -> Option<Seq<char>> {
    match groups {
        Some(g) => if g.len() > 1 && g[1] is Some {
            g[1]
        } else if g.len() > 0 {
            g[0]
        } else {
            None
        },
        None => None,
    }
}

/// Picks the key among capture groups.
pub fn group_key(groups: Option<Vec<Option<String>>>) -> (key: Option<String>)
    ensures
        opt_view(key) == key_of_groups(groups_view(groups)),
{
    let ghost named = groups_view(groups);
    match groups {
        Some(mut g) => {
            if g.len() > 1 && g[1].is_some() {
                assert(named->0[1] == opt_view(g@[1]));
                g.swap_remove(1)
            } else if g.len() > 0 {
                assert(named->0[0] == opt_view(g@[0]));
                proof {
                    if g@.len() > 1 {
                        assert(named->0[1] == opt_view(g@[1]));
                    }
                }
                g.swap_remove(0)
            } else {
                None
            }
        },
        None => None,
    }
}

/// The key that the expression of text `source` finds in a line: escape sequences
/// are ignored.
pub open spec fn key_in_line(source: Seq<char>, line: Seq<u8>) -> Option<Seq<char>> {
    key_of_groups(regex_captures(source, decode_utf8(stripped(line))))
}

/// The expression of text `source` matches in a line, escape sequences aside.
pub open spec fn line_matches(source: Seq<char>, line: Seq<u8>) -> bool {
    regex_captures(source, decode_utf8(stripped(line))) is Some
}

/// The text that `re` captures from `line`, read without its escape sequences:
/// group 1, or the whole match. None exactly where `re` does not match.
pub fn line_key(line: &str, re: &Pattern) -> (key: Option<String>)
    ensures
        opt_view(key) == key_in_line(re@, line.spec_bytes()),
        key is Some <==> line_matches(re@, line.spec_bytes()),
        match regex_captures(re@, decode_utf8(stripped(line.spec_bytes()))) {
            Some(g) => {
                &&& g.len() > 0 && g[0] is Some
                &&& key is Some
                &&& key->0@ == if g.len() > 1 && g[1] is Some {
                    g[1]->0
                } else {
                    g[0]->0
                }
            },
            None => key is None,
        },
        key matches Some(k) ==> !k@.contains('\u{1b}'),
{
    let plain = strip_ansi(line);
    let text = match &plain {
        Cow::Borrowed(s) => *s,
        Cow::Owned(s) => s.as_str(),
    };
    proof {
        lemma_str_view(text);
    }
    let groups = captures(re, text);
    proof {
        law_stripped_is_plain(line.spec_bytes());
        if text@.contains('\u{1b}') {
            lemma_encode_ascii_member(text@, '\u{1b}');
        }
        let named = groups_view(groups);
        if named is Some {
            assert(named->0[0] == opt_view(groups->0@[0]));
        }
        if let Some(k) = key_of_groups(named) {
            let g = groups->0@;
            let j: int = if g.len() > 1 && named->0[1] is Some {
                1
            } else {
                0
            };
            assert(named->0[j] == opt_view(g[j]));
            assert(is_part_of(g[j]->0@, text@));
            let (a, b) = choose|a: int, b: int|
                0 <= a <= b <= text@.len() && k == #[trigger] text@.subrange(a, b);
            assert forall|i: int| 0 <= i < k.len() implies k[i] != '\u{1b}' by {
                assert(text@.contains(text@[a + i]));
            }
        }
    }
    group_key(groups)
}

/// The first of `lines` that is not blank.
pub open spec fn first_not_blank(lines: Seq<Seq<u8>>) -> Option<Seq<u8>>
    decreases lines.len(),
{
    if lines.len() == 0 {
        None
    } else if !is_blank(decode_utf8(lines[0])) {
        Some(lines[0])
    } else {
        first_not_blank(lines.skip(1))
    }
}

/// The key of a chunk: what the expression finds in its first line that is not
/// blank.
pub open spec fn key_in_chunk(source: Seq<char>, chunk: Seq<u8>) -> Option<Seq<char>> {
    match first_not_blank(lines_of(chunk)) {
        Some(line) => key_in_line(source, line),
        None => None,
    }
}

/// The expression of text `source` matches in the first line of a chunk that is
/// not blank.
pub open spec fn chunk_matches(source: Seq<char>, chunk: Seq<u8>) -> bool {
    first_not_blank(lines_of(chunk)) matches Some(line) && line_matches(source, line)
}

/// The text `re` captures from the first line of `chunk` that is not blank: group
/// 1, or the whole match. None exactly where there is no such line or `re` does
/// not match in it. Matching ignores escape sequences, so a pattern is written
/// against the text as it reads on screen.
pub fn chunk_key(chunk: &str, re: &Pattern) -> (key: Option<String>)
    ensures
        opt_view(key) == key_in_chunk(re@, chunk.spec_bytes()),
        key is Some <==> chunk_matches(re@, chunk.spec_bytes()),
        match first_not_blank(lines_of(chunk.spec_bytes())) {
            Some(line) => match regex_captures(re@, decode_utf8(stripped(line))) {
                Some(g) => {
                    &&& g.len() > 0 && g[0] is Some
                    &&& key is Some
                    &&& key->0@ == if g.len() > 1 && g[1] is Some {
                        g[1]->0
                    } else {
                        g[0]->0
                    }
                },
                None => key is None,
            },
            None => key is None,
        },
        key matches Some(k) ==> !k@.contains('\u{1b}'),
{
    let all = lines(chunk);
    let n: usize = all.len();
    let mut i: usize = 0;
    let ghost seq = lines_of(chunk.spec_bytes());
    assert(seq.skip(0) =~= seq);
    while i < n
        invariant
            n == all@.len(),
            i <= n,
            seq == lines_of(chunk.spec_bytes()),
            seq == bytes_of(all@),
            first_not_blank(seq) == first_not_blank(seq.skip(i as int)),
        decreases n - i,
    {
        let line = all[i];
        proof {
            lemma_str_view(line);
            assert(seq.skip(i as int)[0] == line.spec_bytes());
            assert(seq.skip(i as int).skip(1) =~= seq.skip(i + 1));
        }
        if !blank(line) {
            return line_key(line, re);
        }
        i = i + 1;
    }
    None
}

/// Only the first line of a chunk that is not blank is read: whatever else two
/// chunks hold, with the same such line they have the same key.
pub proof fn law_key_reads_one_line(source: Seq<char>, a: Seq<u8>, b: Seq<u8>)
    requires
        first_not_blank(lines_of(a)) == first_not_blank(lines_of(b)),
    ensures
        key_in_chunk(source, a) == key_in_chunk(source, b),
{
}

/// Matching ignores escape sequences: a line has the key of the text that it
/// reads as on screen.
pub proof fn law_key_ignores_escapes(source: Seq<char>, line: Seq<u8>)
    ensures
        key_in_line(source, stripped(line)) == key_in_line(source, line),
{
    law_strip_twice(line);
}

/// The key is the whole text of group 1 where the group took part in the match,
/// and else the whole match. There is none exactly without a match.
pub proof fn law_key_is_group_one(groups: Seq<Option<Seq<char>>>)
    requires
        groups.len() > 0,
        groups[0] is Some,
    ensures
        key_of_groups(Some(groups)) is Some,
        key_of_groups(Some(groups)) == groups[0] || groups.len() > 1 && key_of_groups(Some(groups))
            == groups[1],
        forall|text: Seq<char>|
            groups.len() > 1 && groups[1] == Some(text) ==> key_of_groups(Some(groups)) == Some(
                text,
            ),
        groups.len() == 1 || groups[1] is None ==> key_of_groups(Some(groups)) == groups[0],
        key_of_groups(None) is None,
{
}

/// The line that is read is the first that holds a character that is not white
/// space: all lines before it are white space alone.
pub proof fn law_first_line_with_content(lines: Seq<Seq<u8>>)
    ensures
        match first_not_blank(lines) {
            Some(line) => exists|i: int|
                #![trigger lines[i]]
                {
                    &&& 0 <= i < lines.len()
                    &&& lines[i] == line
                    &&& exists|c: int|
                        0 <= c < decode_utf8(line).len() && !is_white_space(
                            #[trigger] decode_utf8(line)[c],
                        )
                    &&& forall|k: int, c: int|
                        0 <= k < i && 0 <= c < decode_utf8(lines[k]).len() ==> is_white_space(
                            #[trigger] decode_utf8(lines[k])[c],
                        )
                },
            None => forall|k: int, c: int|
                0 <= k < lines.len() && 0 <= c < decode_utf8(lines[k]).len() ==> is_white_space(
                    #[trigger] decode_utf8(lines[k])[c],
                ),
        },
    decreases lines.len(),
{
    if lines.len() > 0 && is_blank(decode_utf8(lines[0])) {
        let rest = lines.skip(1);
        law_first_line_with_content(rest);
        assert forall|k: int| 0 < k < lines.len() implies #[trigger] lines[k] == rest[k - 1] by {}
        if let Some(line) = first_not_blank(lines) {
            let i = choose|i: int|
                #![trigger rest[i]]
                {
                    &&& 0 <= i < rest.len()
                    &&& rest[i] == line
                    &&& exists|c: int|
                        0 <= c < decode_utf8(line).len() && !is_white_space(
                            #[trigger] decode_utf8(line)[c],
                        )
                    &&& forall|k: int, c: int|
                        0 <= k < i && 0 <= c < decode_utf8(rest[k]).len() ==> is_white_space(
                            #[trigger] decode_utf8(rest[k])[c],
                        )
                };
            assert(lines[i + 1] == line);
            assert forall|k: int, c: int|
                0 <= k < i + 1 && 0 <= c < decode_utf8(lines[k]).len() implies is_white_space(
                #[trigger] decode_utf8(lines[k])[c],
            ) by {
                if k > 0 {
                    assert(lines[k] == rest[k - 1]);
                }
            }
        } else {
            assert forall|k: int, c: int|
                0 <= k < lines.len() && 0 <= c < decode_utf8(lines[k]).len() implies is_white_space(
                #[trigger] decode_utf8(lines[k])[c],
            ) by {
                if k > 0 {
                    assert(lines[k] == rest[k - 1]);
                }
            }
        }
    } else if lines.len() > 0 {
        assert(lines[0] == first_not_blank(lines)->0);
    }
}

/// A line whose predecessors are white space alone and which is not is the line
/// that is read, whatever follows it.
pub proof fn law_line_that_is_read(before: Seq<Seq<u8>>, line: Seq<u8>, after: Seq<Seq<u8>>, c: int)
    requires
        forall|k: int, i: int|
            0 <= k < before.len() && 0 <= i < decode_utf8(before[k]).len() ==> is_white_space(
                #[trigger] decode_utf8(before[k])[i],
            ),
        0 <= c < decode_utf8(line).len(),
        !is_white_space(decode_utf8(line)[c]),
    ensures
        first_not_blank(before + seq![line] + after) == Some(line),
    decreases before.len(),
{
    let all = before + seq![line] + after;
    if before.len() == 0 {
        assert(all[0] == line);
    } else {
        let rest = before.skip(1);
        assert(all[0] == before[0]);
        assert(all.skip(1) =~= rest + seq![line] + after);
        assert forall|k: int, i: int|
            0 <= k < rest.len() && 0 <= i < decode_utf8(rest[k]).len() implies is_white_space(
            #[trigger] decode_utf8(rest[k])[i],
        ) by {
            assert(rest[k] == before[k + 1]);
        }
        law_line_that_is_read(rest, line, after, c);
        assert(is_blank(decode_utf8(before[0])));
    }
}

/// An optional string is its characters, and capture groups are those of each
/// group.
pub proof fn law_views_of_groups(text: String, groups: Vec<Option<String>>)
    ensures
        opt_view(Some(text)) == Some(text@),
        opt_view(None) is None,
        groups_view(None) is None,
        groups_view(Some(groups)) is Some,
        groups_view(Some(groups))->0.len() == groups@.len(),
        forall|i: int|
            0 <= i < groups@.len() ==> match #[trigger] groups@[i] {
                Some(t) => groups_view(Some(groups))->0[i] == Some(t@),
                None => groups_view(Some(groups))->0[i] is None,
            },
{
}

} // verus!
