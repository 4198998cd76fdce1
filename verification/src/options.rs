//! What the command line asks for.

use vstd::prelude::*;
use vstd::string::*;
#[allow(unused_imports)]
use vstd::utf8::*;

use crate::pages::{split_pages, Page};
#[allow(unused_imports)]
use crate::pages::{grouped, pages_of, pages_view};
#[allow(unused_imports)]
use crate::pattern::regex_error;
use crate::pattern::{Pattern, PatternError};

verus! {

/// Matches a difftastic hunk header (`path --- 2/7 --- Rust`), capturing the path.
pub const DIFFT_HEADER: &'static str = "^(.*?) --- ";

/// The text of the grouping pattern: the one for difftastic, or the one given.
pub open spec fn wanted_source(difft: bool, group_by: Option<Seq<char>>) -> Option<Seq<char>> {
    if difft {
        Some(DIFFT_HEADER@)
    } else {
        group_by
    }
}

/// The characters of an optional text.
pub open spec fn text_of(text: Option<&str>) -> Option<Seq<char>> {
    match text {
        Some(t) => Some(t@),
        None => None,
    }
}

/// The text of the grouping pattern that the options ask for.
pub fn group_source<'a>(difft: bool, group_by: Option<&'a str>) -> (source: Option<&'a str>)
    ensures
        text_of(source) == wanted_source(difft, text_of(group_by)),
{
    if difft {
        Some(DIFFT_HEADER)
    } else {
        group_by
    }
}

/// A delimiter as it is written on the command line, with the two characters `\n`
/// read as a line feed.
pub open spec fn with_newlines(written: Seq<char>) -> Seq<char>
    decreases written.len(),
{
    if written.len() == 0 {
        Seq::empty()
    } else if written.len() > 1 && written[0] == '\\' && written[1] == 'n' {
        seq!['\n'] + with_newlines(written.skip(2))
    } else {
        seq![written[0]] + with_newlines(written.skip(1))
    }
}

/// The delimiter that the option stands for: the two characters `\n` are a line
/// feed, since a shell passes them on as they are. All else stands for itself.
pub fn delimiter_of(split_on: &str) -> (d: String)
    ensures
        d@ == with_newlines(split_on@),
{
    let n: usize = split_on.unicode_len();
    let mut d = String::new();
    let mut i: usize = 0;
    proof {
        reveal_strlit("\n");
        assert("\n"@ =~= seq!['\n']);
        assert(split_on@.skip(0) =~= split_on@);
        assert(d@ + with_newlines(split_on@) =~= with_newlines(split_on@));
    }
    while i < n
        invariant
            n == split_on@.len(),
            i <= n,
            "\n"@ == seq!['\n'],
            d@ + with_newlines(split_on@.skip(i as int)) == with_newlines(split_on@),
        decreases n - i,
    {
        let ghost before = d@;
        let ghost rest = split_on@.skip(i as int);
        let step: usize = if i + 1 < n && split_on.get_char(i) == '\\' && split_on.get_char(i + 1)
            == 'n' {
            d.append("\n");
            2
        } else {
            d.append(split_on.substring_char(i, i + 1));
            1
        };
        proof {
            let read = if step == 2 {
                seq!['\n']
            } else {
                seq![rest[0]]
            };
            assert(d@ =~= before + read);
            assert(rest.skip(step as int) =~= split_on@.skip(i + step));
            assert(d@ + with_newlines(split_on@.skip(i + step)) =~= before + (read + with_newlines(
                split_on@.skip(i + step),
            )));
        }
        i = i + step;
    }
    assert(split_on@.skip(n as int).len() == 0);
    assert(d@ =~= with_newlines(split_on@));
    d
}

/// Splits `input` into pages as the options ask for. Empty input has no page,
/// whatever the pattern; otherwise a pattern that is no regular expression is
/// refused.
pub fn load_pages<'a>(
    input: &'a str,
    split_on: &str,
    difft: bool,
    group_by: Option<&str>,
) -> (pages: Result<Vec<Page<'a>>, PatternError>)
    ensures
        match pages {
            Ok(pages) => if input@.len() == 0 {
                pages@.len() == 0
            } else {
                let source = wanted_source(difft, text_of(group_by));
                &&& source is Some ==> regex_error(source->0) is None
                &&& pages_view(pages@) == pages_of(
                    input.spec_bytes(),
                    grouped(
                        input.spec_bytes(),
                        encode_utf8(with_newlines(split_on@)),
                        source,
                    ),
                )
            },
            Err(e) => {
                let source = wanted_source(difft, text_of(group_by));
                &&& input@.len() > 0
                &&& source is Some
                &&& regex_error(source->0) == Some(e.message@)
            },
        },
{
    if input.is_empty() {
        return Ok(Vec::new());
    }
    let delimiter = delimiter_of(split_on);
    match group_source(difft, group_by) {
        Some(source) => match Pattern::new(source) {
            Ok(re) => Ok(split_pages(input, delimiter.as_str(), Some(&re))),
            Err(e) => Err(e),
        },
        None => Ok(split_pages(input, delimiter.as_str(), None)),
    }
}

/// A delimiter in which no backslash stands before an `n` stands for itself.
pub proof fn law_plain_delimiter_is_kept(written: Seq<char>)
    requires
        forall|i: int|
            0 <= i < written.len() - 1 && #[trigger] written[i] == '\\' ==> written[i + 1] != 'n',
    ensures
        with_newlines(written) == written,
    decreases written.len(),
{
    if written.len() > 0 {
        let rest = written.skip(1);
        assert forall|i: int|
            0 <= i < rest.len() - 1 && #[trigger] rest[i] == '\\' implies rest[i + 1] != 'n' by {
            assert(written[i + 1] == rest[i]);
        }
        law_plain_delimiter_is_kept(rest);
        assert(seq![written[0]] + rest =~= written);
    }
}

/// The option for difftastic is shorthand for grouping by its hunk header.
pub proof fn law_difft_is_shorthand(group_by: Option<Seq<char>>)
    ensures
        wanted_source(true, group_by) == wanted_source(false, Some(DIFFT_HEADER@)),
{
}

/// Each backslash and `n` becomes a line feed and all else stays: `plain` holds no
/// such pair.
pub proof fn law_written_newlines_are_read(plain: Seq<char>, rest: Seq<char>)
    requires
        forall|i: int|
            0 <= i < plain.len() - 1 && #[trigger] plain[i] == '\\' ==> plain[i + 1] != 'n',
    ensures
        with_newlines(plain) == plain,
        with_newlines(plain + seq!['\\', 'n'] + rest) == plain + seq!['\n'] + with_newlines(rest),
    decreases plain.len(),
{
    law_plain_delimiter_is_kept(plain);
    let all = plain + seq!['\\', 'n'] + rest;
    if plain.len() == 0 {
        assert(all[0] == '\\' && all[1] == 'n');
        assert(all.skip(2) =~= rest);
        assert(seq!['\n'] + with_newlines(rest) =~= plain + seq!['\n'] + with_newlines(rest));
    } else {
        let more = plain.skip(1);
        assert forall|i: int|
            0 <= i < more.len() - 1 && #[trigger] more[i] == '\\' implies more[i + 1] != 'n' by {
            assert(plain[i + 1] == more[i]);
        }
        law_written_newlines_are_read(more, rest);
        assert(all[0] == plain[0]);
        if plain.len() > 1 {
            assert(all[1] == plain[1]);
        } else {
            assert(all[1] == '\\');
        }
        assert(all.skip(1) =~= more + seq!['\\', 'n'] + rest);
        assert(seq![plain[0]] + (more + seq!['\n'] + with_newlines(rest)) =~= plain + seq!['\n']
            + with_newlines(rest));
    }
}

/// Without the option for difftastic the pattern is the one given, to the
/// character, or none.
pub proof fn law_given_pattern_is_used(group_by: Option<&str>)
    ensures
        group_by is None ==> wanted_source(false, text_of(group_by)) is None,
        group_by is Some ==> wanted_source(false, text_of(group_by)) == Some(group_by->0@),
        wanted_source(true, text_of(group_by)) == Some("^(.*?) --- "@),
{
}

} // verus!
