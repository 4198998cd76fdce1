//! Binds: keys that run a shell command, and what the command is told.

use vstd::prelude::*;
use vstd::slice::slice_subrange;
use vstd::string::*;
#[allow(unused_imports)]
use vstd::utf8::*;

#[allow(unused_imports)]
use crate::ansi::stripped;
use crate::keys::Key;
use crate::pages::Page;
use crate::pattern::{line_key, Pattern};
#[allow(unused_imports)]
use crate::pattern::{key_in_line, key_of_groups, line_matches, opt_view, regex_captures};
use crate::screen::to_decimal;
#[allow(unused_imports)]
use crate::screen::{decimal, visible_end};
#[allow(unused_imports)]
use crate::text::bytes_of;

verus! {

/// A key and the shell command that it runs.
#[derive(Debug)]
pub struct Bind {
    pub key: Key,
    pub run: String,
}

/// The keys of the binds.
pub open spec fn bind_keys(binds: Seq<Bind>) -> Seq<Key> {
    Seq::new(binds.len(), |i: int| binds[i].key)
}

/// The index of the first of `keys` that is `key`.
pub open spec fn first_bind(keys: Seq<Key>, key: Key) -> Option<int>
    decreases keys.len(),
{
    if keys.len() == 0 {
        None
    } else if keys[0] == key {
        Some(0)
    } else {
        match first_bind(keys.skip(1), key) {
            Some(i) => Some(i + 1),
            None => None,
        }
    }
}

/// `first_bind` gives the first occurrence.
pub proof fn lemma_first_bind(keys: Seq<Key>, key: Key)
    ensures
        match first_bind(keys, key) {
            Some(i) => {
                &&& 0 <= i < keys.len()
                &&& keys[i] == key
                &&& forall|k: int| 0 <= k < i ==> keys[k] != key
            },
            None => !keys.contains(key),
        },
    decreases keys.len(),
{
    if keys.len() > 0 && keys[0] != key {
        let rest = keys.skip(1);
        lemma_first_bind(rest, key);
        assert(forall|k: int| 0 < k < keys.len() ==> keys[k] == rest[k - 1]);
        if first_bind(rest, key) is None && keys.contains(key) {
            let k = choose|k: int| 0 <= k < keys.len() && keys[k] == key;
            assert(rest[k - 1] == key);
        }
    }
}

/// The index of the first bind for `key`.
pub fn find_bind(binds: &[Bind], key: Key) -> (found: Option<usize>)
    ensures
        match found {
            Some(i) => i < binds@.len() && first_bind(bind_keys(binds@), key) == Some(i as int),
            None => first_bind(bind_keys(binds@), key) is None,
        },
        match found {
            Some(i) => i < binds@.len() && binds@[i as int].key == key && forall|k: int|
                0 <= k < i ==> (#[trigger] binds@[k]).key != key,
            None => forall|k: int| 0 <= k < binds@.len() ==> (#[trigger] binds@[k]).key != key,
        },
{
    let n: usize = binds.len();
    let mut i: usize = 0;
    let ghost keys = bind_keys(binds@);
    proof {
        lemma_first_bind(keys, key);
    }
    while i < n
        invariant
            n == binds@.len(),
            keys == bind_keys(binds@),
            i <= n,
            forall|k: int| 0 <= k < i ==> keys[k] != key,
            forall|k: int| 0 <= k < i ==> (#[trigger] binds@[k]).key != key,
            match first_bind(keys, key) {
                Some(f) => {
                    &&& 0 <= f < keys.len()
                    &&& keys[f] == key
                    &&& forall|k: int| 0 <= k < f ==> keys[k] != key
                },
                None => !keys.contains(key),
            },
        decreases n - i,
    {
        if binds[i].key == key {
            assert(keys[i as int] == key);
            assert(keys.contains(key));
            return Some(i);
        }
        i = i + 1;
    }
    None
}

/// What the shell command of a bind finds in its environment.
#[derive(Debug)]
pub struct BindEnv {
    /// `PAGER_FILE`: the title of the page, empty without one.
    pub file: String,
    /// `PAGER_LINE`: the line number read off the screen, empty without one.
    pub line: String,
    /// `PAGER_PAGE`: the number of the page, counted from one.
    pub page: String,
    /// `PAGER_TOTAL`: the number of pages.
    pub total: String,
}

/// What the expression of text `source` finds in the first of `rows` in which it
/// finds anything.
pub open spec fn first_key(source: Seq<char>, rows: Seq<Seq<u8>>) -> Option<Seq<char>>
    decreases rows.len(),
{
    if rows.len() == 0 {
        None
    } else {
        match key_in_line(source, rows[0]) {
            Some(key) => Some(key),
            None => first_key(source, rows.skip(1)),
        }
    }
}

/// What `re` captures from the topmost row in which it matches, escape sequences
/// aside: group 1, or the whole match. None exactly where it matches in no row.
pub fn line_number(rows: &[&str], re: &Pattern) -> (found: Option<String>)
    ensures
        opt_view(found) == first_key(re@, bytes_of(rows@)),
        found is Some <==> exists|i: int|
            0 <= i < rows@.len() && line_matches(re@, (#[trigger] rows@[i]).spec_bytes()),
{
    let n: usize = rows.len();
    let mut i: usize = 0;
    let ghost all = bytes_of(rows@);
    assert(all.skip(0) =~= all);
    while i < n
        invariant
            n == rows@.len(),
            all == bytes_of(rows@),
            i <= n,
            first_key(re@, all) == first_key(re@, all.skip(i as int)),
            forall|k: int|
                0 <= k < i ==> !line_matches(re@, (#[trigger] rows@[k]).spec_bytes()),
        decreases n - i,
    {
        let found = line_key(rows[i], re);
        proof {
            assert(all.skip(i as int)[0] == all[i as int]);
            assert(all.skip(i as int).skip(1) =~= all.skip(i + 1));
        }
        if found.is_some() {
            return found;
        }
        i = i + 1;
    }
    None
}

/// The text, or nothing.
pub open spec fn or_empty(text: Option<Seq<char>>) -> Seq<char> {
    match text {
        Some(t) => t,
        None => Seq::empty(),
    }
}

/// What a bind's command is told about page `page`, counted from zero, of `total`,
/// scrolled down by `scroll` lines, of which `height` fit on the screen.
pub fn bind_env(
    page_content: &Page<'_>,
    scroll: usize,
    height: usize,
    page: usize,
    total: usize,
    line_pattern: Option<&Pattern>,
) -> (env: BindEnv)
    requires
        scroll <= page_content.lines@.len(),
        page < usize::MAX,
    ensures
        env.file@ == or_empty(page_content@.title),
        match page_content.title {
            Some(t) => env.file@ == t@,
            None => env.file@.len() == 0,
        },
        line_pattern is None ==> env.line@.len() == 0,
        env.line@ == match line_pattern {
            Some(re) => or_empty(
                first_key(
                    re@,
                    page_content@.lines.subrange(
                        scroll as int,
                        visible_end(
                            page_content@.lines.len() as int,
                            scroll as int,
                            height as int,
                        ),
                    ),
                ),
            ),
            None => Seq::empty(),
        },
        env.page@ == decimal(page + 1),
        env.total@ == decimal(total as int),
{
    let lines = page_content.lines.as_slice();
    let n: usize = lines.len();
    let end: usize = if n - scroll < height {
        n
    } else {
        scroll + height
    };
    let file = match &page_content.title {
        Some(title) => title.clone(),
        None => String::new(),
    };
    let line = match line_pattern {
        Some(re) => {
            let rows = slice_subrange(lines, scroll, end);
            assert(bytes_of(rows@) =~= page_content@.lines.subrange(scroll as int, end as int));
            match line_number(rows, re) {
                Some(found) => found,
                None => String::new(),
            }
        },
        None => String::new(),
    };
    BindEnv { file, line, page: to_decimal(page + 1), total: to_decimal(total) }
}

/// What is found is what is captured in the topmost row that matches: no row above
/// it matches. Nothing is found exactly where no row matches.
pub proof fn law_topmost_match(source: Seq<char>, rows: Seq<Seq<u8>>, i: int)
    requires
        0 <= i < rows.len(),
        forall|k: int|
            0 <= k < i ==> key_of_groups(
                regex_captures(source, decode_utf8(stripped(#[trigger] rows[k]))),
            ) is None,
    ensures
        key_of_groups(regex_captures(source, decode_utf8(stripped(rows[i])))) is Some ==> first_key(
            source,
            rows,
        ) == key_of_groups(regex_captures(source, decode_utf8(stripped(rows[i])))),
        key_of_groups(regex_captures(source, decode_utf8(stripped(rows[i])))) is None && i
            == rows.len() - 1 ==> first_key(source, rows) is None,
    decreases i,
{
    let rest = rows.skip(1);
    if i == 0 {
        assert(rest.len() == rows.len() - 1);
    } else {
        assert forall|k: int| 0 <= k < i - 1 implies key_of_groups(
            regex_captures(source, decode_utf8(stripped(#[trigger] rest[k]))),
        ) is None by {
            assert(rest[k] == rows[k + 1]);
        }
        assert(rest[i - 1] == rows[i]);
        law_topmost_match(source, rest, i - 1);
    }
}

/// Without rows nothing is found.
pub proof fn law_no_rows(source: Seq<char>)
    ensures
        first_key(source, Seq::empty()) is None,
{
}

/// What is missing is empty, and what is there is kept whole.
pub proof fn law_missing_is_empty(text: Seq<char>)
    ensures
        or_empty(Some(text)) == text,
        or_empty(None).len() == 0,
{
}

/// The keys of binds are those of each bind, in order.
pub proof fn law_keys_of_binds(binds: Seq<Bind>)
    ensures
        bind_keys(binds).len() == binds.len(),
        forall|i: int| 0 <= i < binds.len() ==> #[trigger] bind_keys(binds)[i] == binds[i].key,
{
}

} // verus!
