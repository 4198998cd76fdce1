//! Splitting text into pages: cutting it at a delimiter, and joining neighbouring
//! chunks that belong together.

use vstd::prelude::*;
use vstd::string::*;
use vstd::utf8::*;

#[allow(unused_imports)]
use crate::ansi::stripped;
#[allow(unused_imports)]
use crate::content::{
    is_blank_text, lemma_blank_concat, lemma_blank_lines, lemma_blank_lines_before,
    law_line_with_content_is_kept, lemma_content_concat, lemma_empty_is_blank,
    lemma_lines_at_newline, lines_with_content,
};
use crate::pattern::{chunk_key, Pattern};
#[allow(unused_imports)]
use crate::pattern::{
    chunk_matches, first_not_blank, key_in_chunk, key_of_groups, law_line_that_is_read,
    opt_view, regex_captures,
};
use crate::text::{blank, find, lines, slice};
#[allow(unused_imports)]
use crate::text::{
    bytes_of, find_from, is_blank, is_white_space, joined, lemma_ascii_boundaries, lemma_find_from,
    lemma_occurrence_boundaries, lemma_slice_valid, lemma_str_view, lines_of, occurs_at,
    without_cr,
};

verus! {

/// One page of the text, and the text that the grouping pattern captured for it
/// (a file path, say), to show in the status bar.
#[derive(Debug)]
pub struct Page<'a> {
    pub title: Option<String>,
    pub lines: Vec<&'a str>,
}

/// A stretch of the text, from byte `start` up to byte `end`, under a title.
#[derive(Debug)]
pub struct Section {
    pub title: Option<String>,
    pub start: usize,
    pub end: usize,
}

/// What a `Section` says.
pub struct SectionView {
    pub title: Option<Seq<char>>,
    pub start: int,
    pub end: int,
}

/// What a `Page` says.
pub struct PageView {
    pub title: Option<Seq<char>>,
    pub lines: Seq<Seq<u8>>,
}

impl View for Section {
    type V = SectionView;

    open spec fn view(&self) -> SectionView {
        SectionView {
            title: opt_view(self.title),
            start: self.start as int,
            end: self.end as int,
        }
    }
}

impl<'a> View for Page<'a> {
    type V = PageView;

    open spec fn view(&self) -> PageView {
        PageView { title: opt_view(self.title), lines: bytes_of(self.lines@) }
    }
}

/// The byte ranges between the occurrences of `delim` in `text`, from `start` on.
pub open spec fn chunks_from(text: Seq<u8>, delim: Seq<u8>, start: int) -> Seq<(int, int)>
    decreases text.len() - start,
    when 0 <= start && delim.len() > 0
{
    match find_from(text, delim, start) {
        Some(end) => {
            proof {
                lemma_find_from(text, delim, start);
            }
            seq![(start, end)] + chunks_from(text, delim, end + delim.len())
        },
        None => seq![(start, text.len() as int)],
    }
}

/// The byte ranges of the chunks of `text` that `delim` separates. An empty
/// delimiter separates nothing.
pub open spec fn chunks(text: Seq<u8>, delim: Seq<u8>) -> Seq<(int, int)> {
    if delim.len() == 0 {
        seq![(0, text.len() as int)]
    } else {
        chunks_from(text, delim, 0)
    }
}

/// Byte ranges as numbers.
pub open spec fn ranges_view(ranges: Seq<(usize, usize)>) -> Seq<(int, int)> {
    Seq::new(ranges.len(), |i: int| (ranges[i].0 as int, ranges[i].1 as int))
}

/// The range lies in `text` and starts and ends between characters.
pub open spec fn in_text(text: Seq<u8>, start: int, end: int) -> bool {
    &&& 0 <= start <= end <= text.len()
    &&& is_char_boundary(text, start)
    &&& is_char_boundary(text, end)
}

/// Byte ranges of the delimiter-separated chunks of `input`, in order.
pub fn chunk_ranges(input: &str, delimiter: &str) -> (ranges: Vec<(usize, usize)>)
    ensures
        ranges_view(ranges@) == chunks(input.spec_bytes(), delimiter.spec_bytes()),
        forall|i: int|
            0 <= i < ranges@.len() ==> in_text(
                input.spec_bytes(),
                (#[trigger] ranges@[i]).0 as int,
                ranges@[i].1 as int,
            ),
{
    let text = input.as_bytes();
    let delim = delimiter.as_bytes();
    let n: usize = text.len();
    let d: usize = delim.len();
    let mut ranges: Vec<(usize, usize)> = Vec::new();
    proof {
        lemma_str_view(input);
        lemma_str_view(delimiter);
        is_char_boundary_start_end_of_seq(text@);
    }
    if d == 0 {
        ranges.push((0, n));
        assert(ranges_view(ranges@) =~= seq![(0int, n as int)]);
        return ranges;
    }
    let mut start: usize = 0;
    assert(ranges_view(ranges@) + chunks_from(text@, delim@, 0) =~= chunks_from(text@, delim@, 0));
    loop
        invariant
            text@ == input.spec_bytes(),
            delim@ == delimiter.spec_bytes(),
            valid_utf8(text@),
            valid_utf8(delim@),
            n == text@.len(),
            d == delim@.len(),
            0 < d,
            start <= n,
            is_char_boundary(text@, start as int),
            is_char_boundary(text@, n as int),
            ranges_view(ranges@) + chunks_from(text@, delim@, start as int) == chunks_from(
                text@,
                delim@,
                0,
            ),
            forall|i: int|
                0 <= i < ranges@.len() ==> in_text(
                    text@,
                    (#[trigger] ranges@[i]).0 as int,
                    ranges@[i].1 as int,
                ),
        decreases n - start,
    {
        let ghost before = ranges@;
        match find(text, delim, start) {
            Some(end) => {
                proof {
                    lemma_find_from(text@, delim@, start as int);
                    lemma_occurrence_boundaries(text@, delim@, end as int);
                }
                ranges.push((start, end));
                proof {
                    let rest = chunks_from(text@, delim@, end + d);
                    assert(ranges_view(ranges@) =~= ranges_view(before).push(
                        (start as int, end as int),
                    ));
                    assert(ranges_view(ranges@) + rest =~= ranges_view(before) + (seq![
                        (start as int, end as int),
                    ] + rest));
                }
                start = end + d;
            },
            None => {
                ranges.push((start, n));
                assert(ranges_view(ranges@) =~= ranges_view(before) + seq![
                    (start as int, n as int),
                ]);
                return ranges;
            },
        }
    }
}

/// The chunk's section, titled by the grouping pattern where there is one.
pub open spec fn section_of(
    text: Seq<u8>,
    range: (int, int),
    pattern: Option<Seq<char>>,
) -> SectionView {
    SectionView {
        title: match pattern {
            Some(source) => key_in_chunk(source, text.subrange(range.0, range.1)),
            None => None,
        },
        start: range.0,
        end: range.1,
    }
}

/// A chunk that is not blank.
pub open spec fn has_content(text: Seq<u8>, range: (int, int)) -> bool {
    !is_blank(decode_utf8(text.subrange(range.0, range.1)))
}

/// Each chunk with content has a title exactly where there is a grouping pattern
/// and it matches in the chunk's first line that is not blank.
pub open spec fn titled_where_matched(
    text: Seq<u8>,
    ranges: Seq<(int, int)>,
    pattern: Option<Seq<char>>,
) -> bool {
    forall|k: int|
        0 <= k < ranges.len() && has_content(text, #[trigger] ranges[k]) ==> (section_of(
            text,
            ranges[k],
            pattern,
        ).title is Some <==> (pattern is Some && chunk_matches(
            pattern->0,
            text.subrange(ranges[k].0, ranges[k].1),
        )))
}

/// The sections of those chunks that are not blank, in order.
pub open spec fn sections_of(
    text: Seq<u8>,
    ranges: Seq<(int, int)>,
    pattern: Option<Seq<char>>,
) -> Seq<SectionView>
    decreases ranges.len(),
{
    if ranges.len() == 0 {
        Seq::empty()
    } else {
        let before = sections_of(text, ranges.drop_last(), pattern);
        let range = ranges.last();
        if is_blank(decode_utf8(text.subrange(range.0, range.1))) {
            before
        } else {
            before.push(section_of(text, range, pattern))
        }
    }
}

/// Neighbouring sections of one title become one section, which reaches over
/// whatever lay between them.
pub open spec fn merged(sections: Seq<SectionView>) -> Seq<SectionView>
    decreases sections.len(),
{
    if sections.len() == 0 {
        Seq::empty()
    } else {
        let before = merged(sections.drop_last());
        let s = sections.last();
        if before.len() > 0 && before.last().title == s.title {
            before.drop_last().push(SectionView { end: s.end, ..before.last() })
        } else {
            before.push(s)
        }
    }
}

/// The sections that become pages: merged under a grouping pattern.
pub open spec fn grouped(
    text: Seq<u8>,
    delim: Seq<u8>,
    pattern: Option<Seq<char>>,
) -> Seq<SectionView> {
    let sections = sections_of(text, chunks(text, delim), pattern);
    if pattern is Some {
        merged(sections)
    } else {
        sections
    }
}

/// The page that shows a section.
pub open spec fn page_of(text: Seq<u8>, section: SectionView) -> PageView {
    PageView {
        title: section.title,
        lines: lines_of(text.subrange(section.start, section.end)),
    }
}

/// The pages that show the sections.
pub open spec fn pages_of(text: Seq<u8>, sections: Seq<SectionView>) -> Seq<PageView> {
    Seq::new(sections.len(), |i: int| page_of(text, sections[i]))
}

/// What the sections say.
pub open spec fn sections_view(sections: Seq<Section>) -> Seq<SectionView> {
    Seq::new(sections.len(), |i: int| sections[i]@)
}

/// What the pages say.
pub open spec fn pages_view<'a>(pages: Seq<Page<'a>>) -> Seq<PageView> {
    Seq::new(pages.len(), |i: int| pages[i]@)
}

/// The text of the grouping pattern, if there is one.
pub open spec fn source_of(pattern: Option<&Pattern>) -> Option<Seq<char>> {
    match pattern {
        Some(p) => Some(p@),
        None => None,
    }
}

/// All sections lie in the text.
pub open spec fn sections_in_text(text: Seq<u8>, sections: Seq<Section>) -> bool {
    forall|i: int|
        0 <= i < sections.len() ==> in_text(
            text,
            (#[trigger] sections[i]).start as int,
            sections[i].end as int,
        )
}

/// The sections of the chunks of `input` that are not blank.
pub fn sections(input: &str, delimiter: &str, group_by: Option<&Pattern>) -> (out: Vec<Section>)
    ensures
        sections_view(out@) == sections_of(
            input.spec_bytes(),
            chunks(input.spec_bytes(), delimiter.spec_bytes()),
            source_of(group_by),
        ),
        sections_in_text(input.spec_bytes(), out@),
        titled_where_matched(
            input.spec_bytes(),
            chunks(input.spec_bytes(), delimiter.spec_bytes()),
            source_of(group_by),
        ),
        forall|i: int|
            0 <= i < out@.len() ==> ((#[trigger] out@[i]).title matches Some(t) ==> !t@.contains(
                '\u{1b}',
            )),
{
    let ranges = chunk_ranges(input, delimiter);
    let n: usize = ranges.len();
    let mut out: Vec<Section> = Vec::new();
    let mut i: usize = 0;
    let ghost text = input.spec_bytes();
    let ghost all = chunks(text, delimiter.spec_bytes());
    proof {
        lemma_str_view(input);
        assert(all.take(0) =~= Seq::empty());
        assert(sections_view(out@) =~= Seq::empty());
    }
    while i < n
        invariant
            n == ranges@.len(),
            i <= n,
            text == input.spec_bytes(),
            valid_utf8(text),
            all == ranges_view(ranges@),
            forall|k: int|
                0 <= k < ranges@.len() ==> in_text(
                    text,
                    (#[trigger] ranges@[k]).0 as int,
                    ranges@[k].1 as int,
                ),
            sections_view(out@) == sections_of(text, all.take(i as int), source_of(group_by)),
            sections_in_text(text, out@),
            titled_where_matched(text, all.take(i as int), source_of(group_by)),
            forall|k: int|
                0 <= k < out@.len() ==> ((#[trigger] out@[k]).title matches Some(t)
                    ==> !t@.contains('\u{1b}')),
        decreases n - i,
    {
        let (start, end): (usize, usize) = ranges[i];
        let chunk = slice(input, start, end);
        proof {
            lemma_str_view(chunk);
            assert(all.take(i + 1).drop_last() =~= all.take(i as int));
            assert(all.take(i + 1).last() == (start as int, end as int));
        }
        if !blank(chunk) {
            let title = match group_by {
                Some(re) => chunk_key(chunk, re),
                None => None,
            };
            let ghost before = out@;
            let section = Section { title, start, end };
            assert(section@ == section_of(text, (start as int, end as int), source_of(group_by)));
            out.push(section);
            assert(sections_view(out@) =~= sections_view(before).push(section@));
        }
        proof {
            assert(forall|k: int| 0 <= k < i ==> all.take(i + 1)[k] == all.take(i as int)[k]);
        }
        i = i + 1;
    }
    assert(all.take(n as int) =~= all);
    out
}

/// Whether two titles are the same.
fn same_title(a: &Option<String>, b: &Option<String>) -> (same: bool)
    ensures
        same == (opt_view(*a) == opt_view(*b)),
{
    match (a, b) {
        (Some(x), Some(y)) => *x == *y,
        (None, None) => true,
        _ => false,
    }
}

/// Joins neighbouring sections of one title. The joined section reaches over what
/// lies between, so the page keeps the spacing of the text.
pub fn merge_sections(sections: Vec<Section>) -> (out: Vec<Section>)
    ensures
        sections_view(out@) == merged(sections_view(sections@)),
        forall|i: int|
            0 <= i < out@.len() ==> exists|j: int|
                0 <= j < sections@.len() && (#[trigger] out@[i]).title == (
                #[trigger] sections@[j]).title,
{
    let mut out: Vec<Section> = Vec::new();
    let ghost all = sections_view(sections@);
    let ghost given = sections@;
    assert(all.take(0) =~= Seq::empty());
    assert(sections_view(out@) =~= Seq::empty());
    for s in it: sections
        invariant
            it.seq() == given,
            all == sections_view(given),
            sections_view(out@) == merged(all.take(it.index() as int)),
            forall|i: int|
                0 <= i < out@.len() ==> exists|j: int|
                    0 <= j < given.len() && (#[trigger] out@[i]).title == (
                    #[trigger] given[j]).title,
    {
        let ghost k = it.index() as int;
        let ghost before = out@;
        proof {
            assert(s == given[k]);
            assert(all.take(k + 1).drop_last() =~= all.take(k));
            assert(all.take(k + 1).last() == s@);
        }
        let n: usize = out.len();
        if n > 0 && same_title(&out[n - 1].title, &s.title) {
            assert(sections_view(before).last() == before.last()@);
            let mut last = out.pop().unwrap();
            last.end = s.end;
            out.push(last);
            assert(out@[n - 1].title == before[n - 1].title);
            assert(sections_view(out@) =~= sections_view(before).drop_last().push(last@));
        } else {
            proof {
                if n > 0 {
                    assert(sections_view(before).last() == before.last()@);
                }
            }
            out.push(s);
            assert(out@[n as int].title == given[k].title);
            assert(sections_view(out@) =~= sections_view(before).push(s@));
        }
        assert(forall|i: int| 0 <= i < n - 1 ==> out@[i] == before[i]);
    }
    assert(all.take(all.len() as int) =~= all);
    out
}

/// The chunks are in order, none reaches into the next, and all lie in `text`.
pub open spec fn ranges_in_order(text: Seq<u8>, ranges: Seq<(int, int)>) -> bool {
    &&& forall|i: int|
        0 <= i < ranges.len() ==> 0 <= (#[trigger] ranges[i]).0 <= ranges[i].1 <= text.len()
    &&& forall|i: int, j: int|
        0 <= i < j < ranges.len() ==> (#[trigger] ranges[i]).1 <= (#[trigger] ranges[j]).0
}

/// The sections are in order and none reaches into the next.
pub open spec fn sections_in_order(sections: Seq<SectionView>) -> bool {
    &&& forall|i: int|
        0 <= i < sections.len() ==> (#[trigger] sections[i]).start <= sections[i].end
    &&& forall|i: int, j: int|
        0 <= i < j < sections.len() ==> (#[trigger] sections[i]).end <= (
        #[trigger] sections[j]).start
}

proof fn lemma_chunks_from(text: Seq<u8>, delim: Seq<u8>, start: int)
    requires
        0 <= start <= text.len(),
        delim.len() > 0,
    ensures
        ({
            let cs = chunks_from(text, delim, start);
            &&& cs.len() > 0
            &&& cs[0].0 == start
            &&& cs.last().1 == text.len()
            &&& ranges_in_order(text, cs)
            &&& forall|i: int| 0 <= i < cs.len() ==> start <= (#[trigger] cs[i]).0
            &&& forall|i: int|
                #![trigger cs[i]]
                0 <= i < cs.len() - 1 ==> occurs_at(text, delim, cs[i].1) && cs[i + 1].0 == cs[i].1
                    + delim.len()
            &&& forall|i: int, k: int|
                0 <= i < cs.len() && (#[trigger] cs[i]).0 <= k < cs[i].1
                    ==> !#[trigger] occurs_at(text, delim, k)
        }),
    decreases text.len() - start,
{
    lemma_find_from(text, delim, start);
    let cs = chunks_from(text, delim, start);
    match find_from(text, delim, start) {
        Some(end) => {
            let next = end + delim.len();
            let rest = chunks_from(text, delim, next);
            lemma_chunks_from(text, delim, next);
            assert(cs =~= seq![(start, end)] + rest);
            assert forall|i: int| 0 < i < cs.len() implies #[trigger] cs[i] == rest[i - 1] by {}
        },
        None => {},
    }
}

proof fn lemma_chunks_in_order(text: Seq<u8>, delim: Seq<u8>)
    ensures
        ranges_in_order(text, chunks(text, delim)),
{
    if delim.len() > 0 {
        lemma_chunks_from(text, delim, 0);
    }
}

/// The chunks cover the text: the first starts it, the last ends it, and between
/// two neighbours stands exactly one delimiter.
pub proof fn law_chunks_cover_the_text(text: Seq<u8>, delim: Seq<u8>)
    requires
        delim.len() > 0,
    ensures
        ({
            let cs = chunks(text, delim);
            &&& cs.len() > 0
            &&& cs[0].0 == 0
            &&& cs.last().1 == text.len()
            &&& forall|i: int|
                #![trigger cs[i]]
                0 <= i < cs.len() - 1 ==> occurs_at(text, delim, cs[i].1) && cs[i + 1].0 == cs[i].1
                    + delim.len()
        }),
{
    lemma_chunks_from(text, delim, 0);
}

/// The text is cut wherever the delimiter stands: no occurrence starts inside a
/// chunk.
pub proof fn law_chunks_hold_no_delimiter(text: Seq<u8>, delim: Seq<u8>, i: int, k: int)
    requires
        delim.len() > 0,
        0 <= i < chunks(text, delim).len(),
        chunks(text, delim)[i].0 <= k < chunks(text, delim)[i].1,
    ensures
        !occurs_at(text, delim, k),
{
    lemma_chunks_from(text, delim, 0);
}

/// The stretches of `text` that the ranges name.
pub open spec fn parts_of(text: Seq<u8>, ranges: Seq<(int, int)>) -> Seq<Seq<u8>> {
    Seq::new(ranges.len(), |i: int| text.subrange(ranges[i].0, ranges[i].1))
}

/// Joining the chunks with the delimiter gives the text back.
pub proof fn law_joined_chunks_are_the_text(text: Seq<u8>, delim: Seq<u8>)
    ensures
        joined(parts_of(text, chunks(text, delim)), delim) == text,
{
    if delim.len() > 0 {
        lemma_joined_from(text, delim, 0);
        assert(text.skip(0) =~= text);
    } else {
        assert(text.subrange(0, text.len() as int) =~= text);
    }
}

proof fn lemma_joined_from(text: Seq<u8>, delim: Seq<u8>, start: int)
    requires
        0 <= start <= text.len(),
        delim.len() > 0,
    ensures
        joined(parts_of(text, chunks_from(text, delim, start)), delim) == text.skip(start),
    decreases text.len() - start,
{
    lemma_find_from(text, delim, start);
    match find_from(text, delim, start) {
        Some(end) => {
            let next = end + delim.len();
            let rest = chunks_from(text, delim, next);
            let parts = parts_of(text, chunks_from(text, delim, start));
            lemma_joined_from(text, delim, next);
            lemma_chunks_from(text, delim, next);
            assert(parts.skip(1) =~= parts_of(text, rest));
            assert(text.subrange(end, next) == delim);
            assert(parts[0] + delim + text.skip(next) =~= text.skip(start));
        },
        None => {
            assert(text.subrange(start, text.len() as int) =~= text.skip(start));
        },
    }
}

/// `section` is the section of one of the chunks, which is not blank.
pub open spec fn comes_from_a_chunk(
    text: Seq<u8>,
    ranges: Seq<(int, int)>,
    pattern: Option<Seq<char>>,
    section: SectionView,
) -> bool {
    exists|a: int|
        0 <= a < ranges.len() && has_content(text, #[trigger] ranges[a]) && section == section_of(
            text,
            ranges[a],
            pattern,
        )
}

proof fn lemma_sections_come_from_chunks(
    text: Seq<u8>,
    ranges: Seq<(int, int)>,
    pattern: Option<Seq<char>>,
    j: int,
)
    requires
        0 <= j < sections_of(text, ranges, pattern).len(),
    ensures
        comes_from_a_chunk(text, ranges, pattern, sections_of(text, ranges, pattern)[j]),
    decreases ranges.len(),
{
    let init = ranges.drop_last();
    let before = sections_of(text, init, pattern);
    let section = sections_of(text, ranges, pattern)[j];
    if j < before.len() {
        assert(section == before[j]);
        lemma_sections_come_from_chunks(text, init, pattern, j);
        let a = choose|a: int|
            0 <= a < init.len() && has_content(text, #[trigger] init[a]) && section == section_of(
                text,
                init[a],
                pattern,
            );
        assert(init[a] == ranges[a]);
    } else {
        assert(has_content(text, ranges[ranges.len() - 1]));
    }
}

proof fn lemma_chunks_become_sections(
    text: Seq<u8>,
    ranges: Seq<(int, int)>,
    pattern: Option<Seq<char>>,
    a: int,
) -> (j: int)
    requires
        0 <= a < ranges.len(),
        has_content(text, ranges[a]),
    ensures
        0 <= j < sections_of(text, ranges, pattern).len(),
        sections_of(text, ranges, pattern)[j] == section_of(text, ranges[a], pattern),
    decreases ranges.len(),
{
    let init = ranges.drop_last();
    let before = sections_of(text, init, pattern);
    if a < init.len() {
        let j = lemma_chunks_become_sections(text, init, pattern, a);
        assert(sections_of(text, ranges, pattern)[j] == before[j]);
        j
    } else {
        before.len() as int
    }
}

proof fn lemma_sections_in_order(
    text: Seq<u8>,
    ranges: Seq<(int, int)>,
    pattern: Option<Seq<char>>,
)
    requires
        ranges_in_order(text, ranges),
    ensures
        sections_in_order(sections_of(text, ranges, pattern)),
    decreases ranges.len(),
{
    if ranges.len() > 0 {
        let init = ranges.drop_last();
        let n = init.len() as int;
        let before = sections_of(text, init, pattern);
        assert(forall|i: int| 0 <= i < n ==> init[i] == ranges[i]);
        assert(ranges_in_order(text, init));
        lemma_sections_in_order(text, init, pattern);
        assert forall|j: int| 0 <= j < before.len() implies (#[trigger] before[j]).end
            <= ranges[n].0 by {
            lemma_sections_come_from_chunks(text, init, pattern, j);
            let a = choose|a: int|
                0 <= a < init.len() && has_content(text, #[trigger] init[a]) && before[j]
                    == section_of(text, init[a], pattern);
            assert(ranges[a].1 <= ranges[n].0);
        }
    }
}

proof fn lemma_merged_last(ss: Seq<SectionView>)
    ensures
        ss.len() == 0 ==> merged(ss).len() == 0,
        ss.len() > 0 ==> merged(ss).len() > 0 && merged(ss).last().end == ss.last().end
            && merged(ss).last().title == ss.last().title,
{
}

proof fn lemma_init_in_order(ss: Seq<SectionView>)
    requires
        ss.len() > 0,
        sections_in_order(ss),
    ensures
        sections_in_order(ss.drop_last()),
{
    let init = ss.drop_last();
    assert(forall|i: int| 0 <= i < init.len() ==> init[i] == ss[i]);
}

proof fn lemma_merged_in_order(ss: Seq<SectionView>)
    requires
        sections_in_order(ss),
    ensures
        sections_in_order(merged(ss)),
    decreases ss.len(),
{
    if ss.len() > 0 {
        let init = ss.drop_last();
        let n = init.len() as int;
        let before = merged(init);
        let m = before.len() as int;
        lemma_init_in_order(ss);
        lemma_merged_in_order(init);
        lemma_merged_last(init);
        if n > 0 {
            assert(ss[n - 1].end <= ss[n].start);
            assert(ss[n].start <= ss[n].end);
            assert(before[m - 1].end == ss[n - 1].end);
        }
    }
}

proof fn lemma_merged_neighbours(ss: Seq<SectionView>, i: int)
    requires
        0 <= i < merged(ss).len() - 1,
    ensures
        merged(ss)[i].title != merged(ss)[i + 1].title,
    decreases ss.len(),
{
    let init = ss.drop_last();
    let before = merged(init);
    let m = before.len() as int;
    let s = ss.last();
    if i < m - 1 {
        lemma_merged_neighbours(init, i);
    }
}

/// `section` starts where one of `ss` starts and ends where it or a later one
/// ends.
pub open spec fn spans_some(ss: Seq<SectionView>, section: SectionView) -> bool {
    exists|a: int, b: int|
        0 <= a <= b < ss.len() && section.start == (#[trigger] ss[a]).start && section.end == (
        #[trigger] ss[b]).end
}

proof fn lemma_merged_spans(ss: Seq<SectionView>, j: int)
    requires
        0 <= j < merged(ss).len(),
    ensures
        spans_some(ss, merged(ss)[j]),
    decreases ss.len(),
{
    let init = ss.drop_last();
    let n = init.len() as int;
    let before = merged(init);
    let m = before.len() as int;
    let section = merged(ss)[j];
    if j < m {
        lemma_merged_spans(init, j);
        let (a, b) = choose|a: int, b: int|
            0 <= a <= b < init.len() && before[j].start == (#[trigger] init[a]).start
                && before[j].end == (#[trigger] init[b]).end;
        assert(init[a] == ss[a] && init[b] == ss[b]);
        if section.end == before[j].end {
            assert(section.start == ss[a].start && section.end == ss[b].end);
        } else {
            assert(section.start == ss[a].start && section.end == ss[n].end);
        }
    } else {
        assert(section.start == ss[n].start && section.end == ss[n].end);
    }
}

proof fn lemma_merged_covers(ss: Seq<SectionView>, a: int) -> (j: int)
    requires
        sections_in_order(ss),
        0 <= a < ss.len(),
    ensures
        0 <= j < merged(ss).len(),
        merged(ss)[j].start <= ss[a].start,
        ss[a].end <= merged(ss)[j].end,
        merged(ss)[j].title == ss[a].title,
    decreases ss.len(),
{
    let init = ss.drop_last();
    let n = init.len() as int;
    let before = merged(init);
    let m = before.len() as int;
    lemma_init_in_order(ss);
    lemma_merged_in_order(init);
    lemma_merged_last(init);
    assert(ss[n].start <= ss[n].end);
    if n > 0 {
        assert(ss[n - 1].end <= ss[n].start);
        assert(before[m - 1].end == ss[n - 1].end);
        assert(before[m - 1].start <= before[m - 1].end);
    }
    if a < n {
        assert(init[a] == ss[a]);
        let j = lemma_merged_covers(init, a);
        if j < m - 1 {
            assert(before[j].end <= before[m - 1].start);
            assert(merged(ss)[j] == before[j]);
        }
        j
    } else {
        merged(ss).len() - 1
    }
}

/// A run of sections of one title becomes part of one section.
proof fn lemma_merged_joins(ss: Seq<SectionView>, x: int, y: int) -> (j: int)
    requires
        sections_in_order(ss),
        0 <= x <= y < ss.len(),
        forall|k: int| x <= k <= y ==> (#[trigger] ss[k]).title == ss[x].title,
    ensures
        0 <= j < merged(ss).len(),
        merged(ss)[j].start <= ss[x].start,
        ss[y].end <= merged(ss)[j].end,
        y == ss.len() - 1 ==> j == merged(ss).len() - 1,
    decreases ss.len(),
{
    let init = ss.drop_last();
    let n = init.len() as int;
    let before = merged(init);
    let m = before.len() as int;
    lemma_init_in_order(ss);
    lemma_merged_in_order(init);
    lemma_merged_last(init);
    assert(forall|k: int| 0 <= k < n ==> init[k] == ss[k]);
    assert(ss[n].start <= ss[n].end);
    if n > 0 {
        assert(ss[n - 1].end <= ss[n].start);
        assert(before[m - 1].end == ss[n - 1].end);
        assert(before[m - 1].start <= before[m - 1].end);
    }
    if y < n {
        let j = lemma_merged_joins(init, x, y);
        if j < m - 1 {
            assert(before[j].end <= before[m - 1].start);
            assert(merged(ss)[j] == before[j]);
        }
        j
    } else if x < n {
        assert(ss[n - 1].title == ss[n].title);
        lemma_merged_joins(init, x, n - 1)
    } else {
        merged(ss).len() - 1
    }
}

/// The pages that show `sections` of `input`.
pub fn pages_from<'a>(input: &'a str, sections: Vec<Section>) -> (pages: Vec<Page<'a>>)
    requires
        sections_in_text(input.spec_bytes(), sections@),
    ensures
        pages_view(pages@) == pages_of(input.spec_bytes(), sections_view(sections@)),
        forall|i: int|
            0 <= i < pages@.len() ==> (#[trigger] pages@[i]).title == sections@[i].title,
{
    let mut pages: Vec<Page<'a>> = Vec::new();
    let ghost text = input.spec_bytes();
    let ghost given = sections@;
    for s in it: sections
        invariant
            it.seq() == given,
            text == input.spec_bytes(),
            sections_in_text(text, given),
            pages@.len() == it.index(),
            forall|i: int|
                0 <= i < pages@.len() ==> (#[trigger] pages@[i])@ == page_of(text, given[i]@)
                    && pages@[i].title == given[i].title,
    {
        assert(s == given[it.index() as int]);
        let part = slice(input, s.start, s.end);
        let page = Page { title: s.title, lines: lines(part) };
        pages.push(page);
    }
    assert(pages_view(pages@) =~= pages_of(text, sections_view(given)));
    pages
}

/// The page is under `title`, to the character, or under none.
pub open spec fn has_title(page: Page<'_>, title: Option<Seq<char>>) -> bool {
    match page.title {
        Some(t) => title == Some(t@),
        None => title is None,
    }
}

/// Splits `input` into pages: the chunks between delimiters, without the blank
/// ones. With a grouping pattern, neighbouring chunks share a page while their
/// keys match: hunks of one file land on one page, and a run of chunks that the
/// pattern does not recognise groups into a page of its own.
pub fn split_pages<'a>(
    input: &'a str,
    delimiter: &str,
    group_by: Option<&Pattern>,
) -> (pages: Vec<Page<'a>>)
    ensures
        pages_view(pages@) == pages_of(
            input.spec_bytes(),
            grouped(input.spec_bytes(), delimiter.spec_bytes(), source_of(group_by)),
        ),
        titled_where_matched(
            input.spec_bytes(),
            chunks(input.spec_bytes(), delimiter.spec_bytes()),
            source_of(group_by),
        ),
        ({
            let text = input.spec_bytes();
            let places = grouped(text, delimiter.spec_bytes(), source_of(group_by));
            let cs = chunks(text, delimiter.spec_bytes());
            &&& pages@.len() == places.len()
            &&& forall|j: int|
                0 <= j < pages@.len() ==> bytes_of((#[trigger] pages@[j]).lines@) == lines_of(
                    text.subrange(places[j].start, places[j].end),
                )
            &&& group_by is None ==> forall|j: int|
                0 <= j < pages@.len() ==> (#[trigger] pages@[j]).title is None
            &&& group_by matches Some(re) ==> forall|j: int, k: int|
                0 <= j < pages@.len() && 0 <= k < cs.len() && has_content(text, cs[k])
                    && places[j].start <= (#[trigger] cs[k]).0 && cs[k].1 <= places[j].end
                    ==> has_title(
                    #[trigger] pages@[j],
                    key_of_groups(
                        regex_captures(
                            re@,
                            decode_utf8(
                                stripped(
                                    first_not_blank(lines_of(text.subrange(cs[k].0, cs[k].1)))->0,
                                ),
                            ),
                        ),
                    ),
                )
        }),
        forall|i: int|
            0 <= i < pages@.len() ==> ((#[trigger] pages@[i]).title matches Some(t)
                ==> !t@.contains('\u{1b}')),
{
    let found = sections(input, delimiter, group_by);
    let ghost text = input.spec_bytes();
    let ghost given = found@;
    let shown = if group_by.is_some() {
        merge_sections(found)
    } else {
        found
    };
    proof {
        lemma_chunks_in_order(text, delimiter.spec_bytes());
        lemma_sections_in_order(text, chunks(text, delimiter.spec_bytes()), source_of(group_by));
        let ss = sections_view(given);
        assert forall|j: int| 0 <= j < shown@.len() implies in_text(
            text,
            (#[trigger] shown@[j]).start as int,
            shown@[j].end as int,
        ) by {
            if group_by is Some {
                let ms = sections_view(shown@);
                lemma_merged_spans(ss, j);
                lemma_merged_in_order(ss);
                assert(ms[j] == shown@[j]@);
                let (a, b) = choose|a: int, b: int|
                    0 <= a <= b < ss.len() && ms[j].start == (#[trigger] ss[a]).start && ms[j].end
                        == (#[trigger] ss[b]).end;
                assert(ss[a] == given[a]@ && ss[b] == given[b]@);
            }
        }
    }
    let ghost titled = shown@;
    let pages = pages_from(input, shown);
    proof {
        assert(pages@.len() == pages_view(pages@).len());
        assert(titled.len() == sections_view(titled).len());
        assert forall|i: int| 0 <= i < pages@.len() implies ((#[trigger] pages@[i]).title matches Some(
            t,
        ) ==> !t@.contains('\u{1b}')) by {
            assert(pages@[i].title == titled[i].title);
            if group_by is Some {
                let j = choose|j: int|
                    0 <= j < given.len() && titled[i].title == (#[trigger] given[j]).title;
                assert(given[j].title == titled[i].title);
            }
        }
        lemma_str_view(input);
        lemma_str_view(delimiter);
        let delim = delimiter.spec_bytes();
        let cs = chunks(text, delim);
        let places = grouped(text, delim, source_of(group_by));
        assert(places == sections_view(titled));
        assert forall|j: int| 0 <= j < pages@.len() implies bytes_of((#[trigger] pages@[j]).lines@)
            == lines_of(text.subrange(places[j].start, places[j].end)) && opt_view(pages@[j].title)
            == places[j].title by {
            assert(pages_view(pages@)[j] == page_of(text, places[j]));
        }
        if group_by is None {
            assert forall|j: int| 0 <= j < pages@.len() implies (
            #[trigger] pages@[j]).title is None by {
                law_one_page_per_chunk(text, delim, j);
            }
        } else {
            let re = group_by->0;
            assert forall|j: int, k: int|
                0 <= j < pages@.len() && 0 <= k < cs.len() && has_content(text, cs[k])
                    && places[j].start <= (#[trigger] cs[k]).0 && cs[k].1
                    <= places[j].end implies has_title(
                #[trigger] pages@[j],
                key_of_groups(
                    regex_captures(
                        re@,
                        decode_utf8(
                            stripped(
                                first_not_blank(lines_of(text.subrange(cs[k].0, cs[k].1)))->0,
                            ),
                        ),
                    ),
                ),
            ) by {
                law_page_holds_one_key(text, delim, Some(re@), k, j);
                lemma_chunk_at_boundaries(text, delim, k);
                lemma_content_has_a_line(text.subrange(cs[k].0, cs[k].1));
            }
        }
    }
    pages
}

/// Grouping does not change where the cuts are: a page starts where a chunk with
/// content starts and ends where that chunk or a later one with content ends.
pub proof fn law_cuts_stay(text: Seq<u8>, delim: Seq<u8>, pattern: Option<Seq<char>>, j: int)
    requires
        0 <= j < grouped(text, delim, pattern).len(),
    ensures
        exists|a: int, b: int|
            0 <= a <= b < chunks(text, delim).len() && grouped(text, delim, pattern)[j].start == (
            #[trigger] chunks(text, delim)[a]).0 && grouped(text, delim, pattern)[j].end == (
            #[trigger] chunks(text, delim)[b]).1 && has_content(text, chunks(text, delim)[a])
                && has_content(text, chunks(text, delim)[b]),
{
    let cs = chunks(text, delim);
    let ss = sections_of(text, cs, pattern);
    let section = grouped(text, delim, pattern)[j];
    lemma_chunks_in_order(text, delim);
    if pattern is Some {
        lemma_merged_spans(ss, j);
    } else {
        assert(section.start == ss[j].start && section.end == ss[j].end);
    }
    let (x, y) = choose|x: int, y: int|
        0 <= x <= y < ss.len() && section.start == (#[trigger] ss[x]).start && section.end == (
        #[trigger] ss[y]).end;
    lemma_sections_come_from_chunks(text, cs, pattern, x);
    lemma_sections_come_from_chunks(text, cs, pattern, y);
    lemma_sections_in_order(text, cs, pattern);
    let a = choose|a: int|
        0 <= a < cs.len() && has_content(text, #[trigger] cs[a]) && ss[x] == section_of(
            text,
            cs[a],
            pattern,
        );
    let b = choose|b: int|
        0 <= b < cs.len() && has_content(text, #[trigger] cs[b]) && ss[y] == section_of(
            text,
            cs[b],
            pattern,
        );
    if a <= b {
        assert(section.start == cs[a].0 && section.end == cs[b].1);
    } else {
        assert(cs[b].1 <= cs[a].0);
        assert(section.start == ss[x].start && section.end == ss[y].end);
        if x < y {
            assert(ss[x].end <= ss[y].start);
        }
        assert(cs[a].0 <= cs[a].1 && cs[b].0 <= cs[b].1);
        assert(section.start == cs[b].0 && section.end == cs[b].1);
    }
}

/// Nothing is ever dropped: each chunk that is not blank lies on a page, under
/// the title that is its key.
pub proof fn law_nothing_is_dropped(
    text: Seq<u8>,
    delim: Seq<u8>,
    pattern: Option<Seq<char>>,
    k: int,
)
    requires
        0 <= k < chunks(text, delim).len(),
        has_content(text, chunks(text, delim)[k]),
    ensures
        exists|j: int|
            0 <= j < grouped(text, delim, pattern).len() && (#[trigger] grouped(
                text,
                delim,
                pattern,
            )[j]).start <= chunks(text, delim)[k].0 && chunks(text, delim)[k].1 <= grouped(
                text,
                delim,
                pattern,
            )[j].end && grouped(text, delim, pattern)[j].title == section_of(
                text,
                chunks(text, delim)[k],
                pattern,
            ).title,
{
    let cs = chunks(text, delim);
    let ss = sections_of(text, cs, pattern);
    lemma_chunks_in_order(text, delim);
    let x = lemma_chunks_become_sections(text, cs, pattern, k);
    if pattern is Some {
        lemma_sections_in_order(text, cs, pattern);
        let j = lemma_merged_covers(ss, x);
        assert(grouped(text, delim, pattern)[j] == merged(ss)[j]);
    } else {
        assert(grouped(text, delim, pattern)[x] == ss[x]);
    }
}

/// A chunk with content is not empty.
proof fn lemma_content_is_not_empty(text: Seq<u8>, range: (int, int))
    requires
        0 <= range.0 <= range.1 <= text.len(),
        has_content(text, range),
    ensures
        range.0 < range.1,
{
    if range.0 == range.1 {
        assert(text.subrange(range.0, range.1).len() == 0);
        assert(decode_utf8(text.subrange(range.0, range.1)).len() == 0);
    }
}

/// A page is under one key: each chunk with content that lies on it has the
/// page's title as its key.
pub proof fn law_page_holds_one_key(
    text: Seq<u8>,
    delim: Seq<u8>,
    pattern: Option<Seq<char>>,
    k: int,
    j: int,
)
    requires
        0 <= k < chunks(text, delim).len(),
        has_content(text, chunks(text, delim)[k]),
        0 <= j < grouped(text, delim, pattern).len(),
        grouped(text, delim, pattern)[j].start <= chunks(text, delim)[k].0,
        chunks(text, delim)[k].1 <= grouped(text, delim, pattern)[j].end,
    ensures
        grouped(text, delim, pattern)[j].title == section_of(
            text,
            chunks(text, delim)[k],
            pattern,
        ).title,
{
    let cs = chunks(text, delim);
    let pages = grouped(text, delim, pattern);
    let title = section_of(text, cs[k], pattern).title;
    lemma_chunks_in_order(text, delim);
    lemma_content_is_not_empty(text, cs[k]);
    law_nothing_is_dropped(text, delim, pattern, k);
    law_pages_are_in_order(text, delim, pattern);
    let i = choose|i: int|
        0 <= i < pages.len() && (#[trigger] pages[i]).start <= cs[k].0 && cs[k].1 <= pages[i].end
            && pages[i].title == title;
    if i < j {
        assert(pages[i].end <= pages[j].start);
    } else if j < i {
        assert(pages[j].end <= pages[i].start);
    }
}

/// Consecutive chunks with the same key share a page, blank chunks between them
/// aside. That goes for chunks without a key too.
pub proof fn law_same_key_same_page(
    text: Seq<u8>,
    delim: Seq<u8>,
    source: Seq<char>,
    a: int,
    b: int,
)
    requires
        0 <= a <= b < chunks(text, delim).len(),
        has_content(text, chunks(text, delim)[a]),
        has_content(text, chunks(text, delim)[b]),
        forall|k: int|
            a <= k <= b && has_content(text, #[trigger] chunks(text, delim)[k]) ==> section_of(
                text,
                chunks(text, delim)[k],
                Some(source),
            ).title == section_of(text, chunks(text, delim)[a], Some(source)).title,
    ensures
        exists|j: int|
            0 <= j < grouped(text, delim, Some(source)).len() && (#[trigger] grouped(
                text,
                delim,
                Some(source),
            )[j]).start <= chunks(text, delim)[a].0 && chunks(text, delim)[b].1 <= grouped(
                text,
                delim,
                Some(source),
            )[j].end,
{
    let cs = chunks(text, delim);
    let pattern = Some(source);
    let ss = sections_of(text, cs, pattern);
    lemma_chunks_in_order(text, delim);
    lemma_sections_in_order(text, cs, pattern);
    lemma_content_is_not_empty(text, cs[a]);
    lemma_content_is_not_empty(text, cs[b]);
    let x = lemma_chunks_become_sections(text, cs, pattern, a);
    let y = lemma_chunks_become_sections(text, cs, pattern, b);
    if y < x {
        assert(ss[y].end <= ss[x].start);
        if a < b {
            assert(cs[a].1 <= cs[b].0);
        }
    }
    assert forall|k: int| x <= k <= y implies (#[trigger] ss[k]).title == ss[x].title by {
        lemma_sections_come_from_chunks(text, cs, pattern, k);
        let c = choose|c: int|
            0 <= c < cs.len() && has_content(text, #[trigger] cs[c]) && ss[k] == section_of(
                text,
                cs[c],
                pattern,
            );
        lemma_content_is_not_empty(text, cs[c]);
        if c < a {
            assert(cs[c].1 <= cs[a].0);
            if x < k {
                assert(ss[x].end <= ss[k].start);
            }
        } else if b < c {
            assert(cs[b].1 <= cs[c].0);
            if k < y {
                assert(ss[k].end <= ss[y].start);
            }
        }
        assert(has_content(text, cs[c]));
    }
    let j = lemma_merged_joins(ss, x, y);
    assert(grouped(text, delim, pattern)[j] == merged(ss)[j]);
}

/// The pages stand in the order of the text and do not overlap.
pub proof fn law_pages_are_in_order(text: Seq<u8>, delim: Seq<u8>, pattern: Option<Seq<char>>)
    ensures
        sections_in_order(grouped(text, delim, pattern)),
{
    lemma_chunks_in_order(text, delim);
    lemma_sections_in_order(text, chunks(text, delim), pattern);
    lemma_merged_in_order(sections_of(text, chunks(text, delim), pattern));
}

/// Under a grouping pattern two neighbouring pages never have the same title.
pub proof fn law_neighbours_differ(
    text: Seq<u8>,
    delim: Seq<u8>,
    source: Seq<char>,
    i: int,
)
    requires
        0 <= i < grouped(text, delim, Some(source)).len() - 1,
    ensures
        grouped(text, delim, Some(source))[i].title != grouped(text, delim, Some(source))[i
            + 1].title,
{
    lemma_merged_neighbours(sections_of(text, chunks(text, delim), Some(source)), i);
}

/// Without a grouping pattern each page is one chunk, untitled.
pub proof fn law_one_page_per_chunk(text: Seq<u8>, delim: Seq<u8>, j: int)
    requires
        0 <= j < grouped(text, delim, None).len(),
    ensures
        grouped(text, delim, None)[j].title is None,
        exists|a: int|
            0 <= a < chunks(text, delim).len() && has_content(
                text,
                #[trigger] chunks(text, delim)[a],
            ) && grouped(text, delim, None)[j].start == chunks(text, delim)[a].0 && grouped(
                text,
                delim,
                None,
            )[j].end == chunks(text, delim)[a].1,
{
    lemma_sections_come_from_chunks(text, chunks(text, delim), None, j);
}

/// Text of which no chunk has content gives no page.
pub proof fn law_blank_chunks_give_no_page(
    text: Seq<u8>,
    delim: Seq<u8>,
    pattern: Option<Seq<char>>,
)
    ensures
        grouped(text, delim, pattern).len() == 0 <==> forall|a: int|
            0 <= a < chunks(text, delim).len() ==> !has_content(
                text,
                #[trigger] chunks(text, delim)[a],
            ),
{
    let cs = chunks(text, delim);
    let ss = sections_of(text, cs, pattern);
    lemma_merged_last(ss);
    if ss.len() > 0 {
        lemma_sections_come_from_chunks(text, cs, pattern, 0);
    } else {
        assert forall|a: int| 0 <= a < cs.len() implies !has_content(text, #[trigger] cs[a]) by {
            if has_content(text, cs[a]) {
                let j = lemma_chunks_become_sections(text, cs, pattern, a);
            }
        }
    }
}

/// The lines of the pages, one page after the other.
pub open spec fn all_lines(pages: Seq<PageView>) -> Seq<Seq<u8>>
    decreases pages.len(),
{
    if pages.len() == 0 {
        Seq::empty()
    } else {
        all_lines(pages.drop_last()) + pages.last().lines
    }
}

/// A delimiter that cuts between lines: it starts and ends with a line feed and is
/// blank in between. An empty one cuts nowhere.
pub open spec fn cuts_between_lines(delim: Seq<u8>) -> bool {
    delim.len() > 0 ==> {
        &&& delim[0] == 0x0a
        &&& delim.last() == 0x0a
        &&& valid_utf8(delim)
        &&& is_blank_text(delim)
    }
}

/// No chunk with content ends with a carriage return before a delimiter, which
/// would belong to a line ending in the text but not in the chunk.
pub open spec fn no_cut_line_endings(text: Seq<u8>, delim: Seq<u8>) -> bool {
    forall|i: int|
        0 <= i < chunks(text, delim).len() - 1 && has_content(
            text,
            #[trigger] chunks(text, delim)[i],
        ) ==> text[chunks(text, delim)[i].1 - 1] != 0x0d
}

/// The lines with content between two offsets.
spec fn content_between(text: Seq<u8>, start: int, end: int) -> Seq<Seq<u8>> {
    lines_with_content(lines_of(text.subrange(start, end)))
}

/// The lines with content of the pages that show the sections.
spec fn content_of(text: Seq<u8>, sections: Seq<SectionView>) -> Seq<Seq<u8>> {
    lines_with_content(all_lines(pages_of(text, sections)))
}

/// The sections of some of the chunks, merged under a grouping pattern.
spec fn shown(text: Seq<u8>, ranges: Seq<(int, int)>, pattern: Option<Seq<char>>) -> Seq<
    SectionView,
> {
    if pattern is Some {
        merged(sections_of(text, ranges, pattern))
    } else {
        sections_of(text, ranges, pattern)
    }
}

proof fn lemma_content_push(text: Seq<u8>, sections: Seq<SectionView>, section: SectionView)
    ensures
        content_of(text, sections.push(section)) == content_of(text, sections) + content_between(
            text,
            section.start,
            section.end,
        ),
{
    let pages = pages_of(text, sections.push(section));
    assert(pages.drop_last() =~= pages_of(text, sections));
    assert(pages.last() == page_of(text, section));
    lemma_content_concat(all_lines(pages_of(text, sections)), page_of(text, section).lines);
}

/// Blank lines between two stretches of text add nothing to what both hold.
proof fn lemma_content_over_gap(text: Seq<u8>, start: int, a: int, b: int, end: int)
    requires
        0 <= start <= a <= b <= end <= text.len(),
        valid_utf8(text.subrange(a, b)),
        is_blank_text(text.subrange(a, b)),
        a < b ==> text[b - 1] == 0x0a,
        start < a ==> a < b && text[a] == 0x0a && text[a - 1] != 0x0d,
    ensures
        content_between(text, start, end) == content_between(text, start, a) + content_between(
            text,
            b,
            end,
        ),
{
    let gap = text.subrange(a, b);
    let head = text.subrange(start, a);
    let tail = text.subrange(b, end);
    lemma_empty_is_blank();
    if start == a {
        assert(head =~= Seq::<u8>::empty());
        assert(text.subrange(start, end) =~= gap + tail);
        lemma_blank_lines_before(gap, tail);
        assert(content_between(text, start, end) =~= content_between(text, start, a)
            + content_between(text, b, end));
    } else {
        let more = gap.skip(1);
        lemma_ascii_boundaries(gap, 0);
        valid_utf8_split(gap, 1);
        assert(gap.subrange(0, 1) + gap.subrange(1, gap.len() as int) =~= gap);
        assert(more =~= gap.subrange(1, gap.len() as int));
        lemma_blank_concat(gap.subrange(0, 1), more);
        assert(text.subrange(start, end) =~= head + seq![0x0au8] + (more + tail));
        lemma_lines_at_newline(head, more + tail);
        lemma_blank_lines_before(more, tail);
    }
}

/// Where valid text is cut between lines, each chunk is valid.
proof fn lemma_chunk_is_valid(text: Seq<u8>, delim: Seq<u8>, n: int)
    requires
        valid_utf8(text),
        delim.len() > 0,
        cuts_between_lines(delim),
        0 <= n < chunks(text, delim).len(),
    ensures
        valid_utf8(text.subrange(chunks(text, delim)[n].0, chunks(text, delim)[n].1)),
{
    lemma_chunk_at_boundaries(text, delim, n);
}

/// The pages hold the lines with content up to `end`, where the last page ends, or
/// none if there is no page yet. From there to `pos` the text is blank.
spec fn covers(text: Seq<u8>, pages: Seq<SectionView>, pos: int, end: int) -> bool {
    &&& 0 <= end <= pos <= text.len()
    &&& content_of(text, pages) == content_between(text, 0, end)
    &&& pages.len() == 0 <==> end == 0
    &&& pages.len() > 0 ==> 0 <= pages.last().start <= end && pages.last().end == end
    &&& valid_utf8(text.subrange(end, pos))
    &&& is_blank_text(text.subrange(end, pos))
    &&& 0 < end < pos ==> text[end] == 0x0a
    &&& 0 < end < text.len() ==> text[end - 1] != 0x0d
}

/// From `pos` to `start` there is nothing but blank lines. Only at the start of the
/// text there may be none.
spec fn is_gap(text: Seq<u8>, pos: int, start: int) -> bool {
    &&& 0 <= pos <= start <= text.len()
    &&& valid_utf8(text.subrange(pos, start))
    &&& is_blank_text(text.subrange(pos, start))
    &&& pos < start ==> text[pos] == 0x0a && text[start - 1] == 0x0a
    &&& pos == start ==> pos == 0
}

proof fn lemma_covers_nothing(text: Seq<u8>)
    ensures
        covers(text, Seq::empty(), 0, 0),
        is_gap(text, 0, 0),
{
    lemma_empty_is_blank();
    assert(pages_of(text, Seq::<SectionView>::empty()) =~= Seq::<PageView>::empty());
    assert(text.subrange(0, 0) =~= Seq::<u8>::empty());
}

proof fn lemma_covers_gap(text: Seq<u8>, pages: Seq<SectionView>, pos: int, end: int, start: int)
    requires
        covers(text, pages, pos, end),
        is_gap(text, pos, start),
    ensures
        covers(text, pages, start, end),
        end < start ==> text[start - 1] == 0x0a,
{
    lemma_blank_concat(text.subrange(end, pos), text.subrange(pos, start));
    assert(text.subrange(end, pos) + text.subrange(pos, start) =~= text.subrange(end, start));
}

proof fn lemma_covers_blank(
    text: Seq<u8>,
    pages: Seq<SectionView>,
    pos: int,
    end: int,
    start: int,
    stop: int,
)
    requires
        covers(text, pages, pos, end),
        is_gap(text, pos, start),
        start <= stop <= text.len(),
        valid_utf8(text.subrange(start, stop)),
        is_blank_text(text.subrange(start, stop)),
    ensures
        covers(text, pages, stop, end),
{
    lemma_covers_gap(text, pages, pos, end, start);
    lemma_blank_concat(text.subrange(end, start), text.subrange(start, stop));
    assert(text.subrange(end, start) + text.subrange(start, stop) =~= text.subrange(end, stop));
}

proof fn lemma_covers_more(
    text: Seq<u8>,
    pages: Seq<SectionView>,
    pos: int,
    end: int,
    section: SectionView,
)
    requires
        covers(text, pages, pos, end),
        is_gap(text, pos, section.start),
        section.start < section.end <= text.len(),
        section.end < text.len() ==> text[section.end - 1] != 0x0d,
    ensures
        covers(text, pages.push(section), section.end, section.end),
{
    lemma_covers_gap(text, pages, pos, end, section.start);
    lemma_content_over_gap(text, 0, end, section.start, section.end);
    lemma_content_push(text, pages, section);
    lemma_empty_is_blank();
    assert(text.subrange(section.end, section.end) =~= Seq::<u8>::empty());
}

proof fn lemma_covers_wider(
    text: Seq<u8>,
    pages: Seq<SectionView>,
    pos: int,
    end: int,
    start: int,
    stop: int,
)
    requires
        covers(text, pages, pos, end),
        pages.len() > 0,
        is_gap(text, pos, start),
        start < stop <= text.len(),
        stop < text.len() ==> text[stop - 1] != 0x0d,
    ensures
        covers(
            text,
            pages.drop_last().push(SectionView { end: stop, ..pages.last() }),
            stop,
            stop,
        ),
{
    let last = pages.last();
    let wider = SectionView { end: stop, ..last };
    let init = pages.drop_last();
    lemma_covers_gap(text, pages, pos, end, start);
    lemma_content_over_gap(text, 0, end, start, stop);
    lemma_content_over_gap(text, last.start, end, start, stop);
    assert(init.push(last) =~= pages);
    lemma_content_push(text, init, last);
    lemma_content_push(text, init, wider);
    assert(content_of(text, init.push(wider)) =~= content_of(text, pages) + content_between(
        text,
        start,
        stop,
    ));
    lemma_empty_is_blank();
    assert(text.subrange(stop, stop) =~= Seq::<u8>::empty());
}

proof fn lemma_covers_all(text: Seq<u8>, pages: Seq<SectionView>, end: int)
    requires
        valid_utf8(text),
        covers(text, pages, text.len() as int, end),
    ensures
        content_of(text, pages) == lines_with_content(lines_of(text)),
{
    let len = text.len() as int;
    assert(text.subrange(0, len) =~= text);
    lemma_empty_is_blank();
    if end == 0 {
        assert(text.subrange(0, 0) =~= Seq::<u8>::empty());
        lemma_blank_lines(text);
    } else if end < len {
        let tail = text.subrange(end, len);
        let more = tail.skip(1);
        lemma_ascii_boundaries(tail, 0);
        valid_utf8_split(tail, 1);
        assert(more =~= tail.subrange(1, tail.len() as int));
        assert(tail.subrange(0, 1) + more =~= tail);
        lemma_blank_concat(tail.subrange(0, 1), more);
        lemma_blank_lines(more);
        assert(text =~= text.subrange(0, end) + seq![0x0au8] + more);
        lemma_lines_at_newline(text.subrange(0, end), more);
        assert(content_between(text, 0, end) + Seq::<Seq<u8>>::empty() =~= content_between(
            text,
            0,
            end,
        ));
    }
}

/// One chunk more: its section joins the pages, or it is blank.
proof fn lemma_covers_chunk(
    text: Seq<u8>,
    ranges: Seq<(int, int)>,
    pattern: Option<Seq<char>>,
    pos: int,
    end: int,
) -> (new_end: int)
    requires
        ranges.len() > 0,
        covers(text, shown(text, ranges.drop_last(), pattern), pos, end),
        is_gap(text, pos, ranges.last().0),
        ranges.last().0 <= ranges.last().1 <= text.len(),
        valid_utf8(text.subrange(ranges.last().0, ranges.last().1)),
        has_content(text, ranges.last()) && ranges.last().1 < text.len() ==> text[ranges.last().1
            - 1] != 0x0d,
    ensures
        covers(text, shown(text, ranges, pattern), ranges.last().1, new_end),
{
    let range = ranges.last();
    let ss = sections_of(text, ranges.drop_last(), pattern);
    let before = shown(text, ranges.drop_last(), pattern);
    if !has_content(text, range) {
        lemma_covers_blank(text, before, pos, end, range.0, range.1);
        end
    } else {
        let section = section_of(text, range, pattern);
        lemma_content_is_not_empty(text, range);
        assert(ss.push(section).drop_last() =~= ss);
        if pattern is Some && before.len() > 0 && before.last().title == section.title {
            lemma_covers_wider(text, before, pos, end, range.0, range.1);
        } else {
            lemma_covers_more(text, before, pos, end, section);
        }
        range.1
    }
}

/// Between two chunks stands the delimiter.
proof fn lemma_gap_before_chunk(text: Seq<u8>, delim: Seq<u8>, n: int)
    requires
        delim.len() > 0,
        cuts_between_lines(delim),
        0 < n < chunks(text, delim).len(),
    ensures
        is_gap(text, chunks(text, delim)[n - 1].1, chunks(text, delim)[n].0),
{
    lemma_chunks_from(text, delim, 0);
    let at = chunks(text, delim)[n - 1].1;
    assert(text.subrange(at, at + delim.len()) == delim);
    assert(delim[0] == text[at]);
    assert(delim[delim.len() - 1] == text[at + delim.len() - 1]);
}

/// The pages of the first `n` chunks hold the lines with content of the text up to
/// the end of these chunks.
proof fn lemma_covers_chunks(
    text: Seq<u8>,
    delim: Seq<u8>,
    pattern: Option<Seq<char>>,
    n: int,
) -> (end: int)
    requires
        valid_utf8(text),
        delim.len() > 0,
        cuts_between_lines(delim),
        no_cut_line_endings(text, delim),
        0 < n <= chunks(text, delim).len(),
    ensures
        covers(
            text,
            shown(text, chunks(text, delim).take(n), pattern),
            chunks(text, delim)[n - 1].1,
            end,
        ),
    decreases n,
{
    let cs = chunks(text, delim);
    let ranges = cs.take(n);
    lemma_chunks_from(text, delim, 0);
    lemma_chunk_is_valid(text, delim, n - 1);
    assert(ranges.drop_last() =~= cs.take(n - 1));
    assert(ranges.last() == cs[n - 1]);
    if n == 1 {
        lemma_covers_nothing(text);
        assert(shown(text, ranges.drop_last(), pattern) =~= Seq::<SectionView>::empty());
        lemma_covers_chunk(text, ranges, pattern, 0, 0)
    } else {
        let end = lemma_covers_chunks(text, delim, pattern, n - 1);
        lemma_gap_before_chunk(text, delim, n - 1);
        lemma_covers_chunk(text, ranges, pattern, cs[n - 2].1, end)
    }
}

/// Nothing is ever dropped, line by line: where the delimiter cuts between lines,
/// the lines with content of all pages, one page after the other, are the lines
/// with content of the text, whether chunks are grouped or not.
pub proof fn law_no_line_is_dropped(text: Seq<u8>, delim: Seq<u8>, pattern: Option<Seq<char>>)
    requires
        valid_utf8(text),
        cuts_between_lines(delim),
        no_cut_line_endings(text, delim),
    ensures
        lines_with_content(all_lines(pages_of(text, grouped(text, delim, pattern))))
            == lines_with_content(lines_of(text)),
{
    let cs = chunks(text, delim);
    let n = cs.len() as int;
    assert(cs.take(n) =~= cs);
    if delim.len() > 0 {
        lemma_chunks_from(text, delim, 0);
        let end = lemma_covers_chunks(text, delim, pattern, n);
        lemma_covers_all(text, shown(text, cs, pattern), end);
    } else {
        lemma_covers_nothing(text);
        assert(cs.drop_last() =~= Seq::<(int, int)>::empty());
        assert(shown(text, cs.drop_last(), pattern) =~= Seq::<SectionView>::empty());
        assert(text.subrange(0, text.len() as int) =~= text);
        let end = lemma_covers_chunk(text, cs, pattern, 0, 0);
        lemma_covers_all(text, shown(text, cs, pattern), end);
    }
}

/// The default delimiter drops no line: cut at empty lines, text without carriage
/// returns shows each of its lines with content once, in order, whether chunks
/// are grouped or not.
pub proof fn law_default_split_drops_no_line(text: Seq<u8>, pattern: Option<Seq<char>>)
    requires
        valid_utf8(text),
        !text.contains(0x0d),
    ensures
        lines_with_content(
            all_lines(pages_of(text, grouped(text, seq![0x0au8, 0x0au8], pattern))),
        ) == lines_with_content(lines_of(text)),
{
    let delim = seq![0x0au8, 0x0au8];
    let nl = seq!['\n', '\n'];
    is_ascii_chars_encode_utf8(nl);
    assert(encode_utf8(nl) =~= delim);
    encode_utf8_valid_utf8(nl);
    encode_utf8_decode_utf8(nl);
    lemma_chunks_in_order(text, delim);
    assert forall|i: int|
        0 <= i < chunks(text, delim).len() - 1 && has_content(
            text,
            #[trigger] chunks(text, delim)[i],
        ) implies text[chunks(text, delim)[i].1 - 1] != 0x0d by {
        lemma_content_is_not_empty(text, chunks(text, delim)[i]);
        assert(text.contains(text[chunks(text, delim)[i].1 - 1]));
    }
    law_no_line_is_dropped(text, delim, pattern);
}

/// Where valid text is cut at a valid delimiter, each chunk is valid.
proof fn lemma_chunk_at_boundaries(text: Seq<u8>, delim: Seq<u8>, k: int)
    requires
        valid_utf8(text),
        valid_utf8(delim),
        0 <= k < chunks(text, delim).len(),
    ensures
        valid_utf8(text.subrange(chunks(text, delim)[k].0, chunks(text, delim)[k].1)),
{
    let cs = chunks(text, delim);
    is_char_boundary_start_end_of_seq(text);
    if delim.len() > 0 {
        lemma_chunks_from(text, delim, 0);
        if k > 0 {
            assert(occurs_at(text, delim, cs[k - 1].1));
            lemma_occurrence_boundaries(text, delim, cs[k - 1].1);
        }
        if k < cs.len() - 1 {
            assert(occurs_at(text, delim, cs[k].1));
            lemma_occurrence_boundaries(text, delim, cs[k].1);
        }
    }
    lemma_slice_valid(text, cs[k].0, cs[k].1);
}

/// Text that is not blank has a line that is not blank.
proof fn lemma_content_has_a_line(text: Seq<u8>)
    requires
        valid_utf8(text),
        !is_blank(decode_utf8(text)),
    ensures
        first_not_blank(lines_of(text)) is Some,
{
    if first_not_blank(lines_of(text)) is None {
        lemma_blank_rows(text);
    }
}

/// Text is blank if all of its lines are.
proof fn lemma_blank_rows(text: Seq<u8>)
    requires
        valid_utf8(text),
        first_not_blank(lines_of(text)) is None,
    ensures
        is_blank_text(text),
    decreases text.len(),
{
    lemma_empty_is_blank();
    if text.len() == 0 {
        assert(text =~= Seq::<u8>::empty());
    } else {
        let nl = seq![0x0au8];
        lemma_find_from(text, nl, 0);
        match find_from(text, nl, 0) {
            Some(i) => {
                let line = text.take(i);
                let rest = text.skip(i + 1);
                assert(text.subrange(i, i + 1)[0] == 0x0a);
                lemma_ascii_boundaries(text, i);
                valid_utf8_split(text, i);
                valid_utf8_split(text, i + 1);
                assert(line =~= text.subrange(0, i));
                assert(rest =~= text.subrange(i + 1, text.len() as int));
                let ls = lines_of(text);
                assert(ls =~= seq![without_cr(line)] + lines_of(rest));
                assert(ls[0] == without_cr(line));
                assert(ls.skip(1) =~= lines_of(rest));
                lemma_blank_rows(rest);
                lemma_ascii_white_space();
                if line.len() > 0 && line.last() == 0x0d {
                    let m = line.len() - 1;
                    lemma_ascii_boundaries(line, m);
                    valid_utf8_split(line, m);
                    assert(line.drop_last() =~= line.subrange(0, m));
                    assert(line.subrange(m, line.len() as int) =~= seq![0x0du8]);
                    lemma_blank_concat(line.drop_last(), seq![0x0du8]);
                    assert(line.drop_last() + seq![0x0du8] =~= line);
                }
                lemma_blank_concat(line, nl);
                lemma_blank_concat(line + nl, rest);
                assert(line + nl + rest =~= text);
            },
            None => {
                assert(lines_of(text)[0] == text);
            },
        }
    }
}

/// A line feed is white space, and a carriage return is.
proof fn lemma_ascii_white_space()
    ensures
        valid_utf8(seq![0x0au8]),
        is_blank_text(seq![0x0au8]),
        valid_utf8(seq![0x0du8]),
        is_blank_text(seq![0x0du8]),
{
    let lf = seq!['\n'];
    is_ascii_chars_encode_utf8(lf);
    assert(encode_utf8(lf) =~= seq![0x0au8]);
    encode_utf8_valid_utf8(lf);
    encode_utf8_decode_utf8(lf);
    let cr = seq!['\r'];
    is_ascii_chars_encode_utf8(cr);
    assert(encode_utf8(cr) =~= seq![0x0du8]);
    encode_utf8_valid_utf8(cr);
    encode_utf8_decode_utf8(cr);
}

/// An empty delimiter cuts nowhere: the text is one chunk.
pub proof fn law_empty_delimiter(text: Seq<u8>)
    ensures
        chunks(text, Seq::empty()).len() == 1,
        chunks(text, Seq::empty())[0].0 == 0,
        chunks(text, Seq::empty())[0].1 == text.len(),
{
}

/// A chunk has content exactly where it holds a character that is not white space.
pub proof fn law_content_of_a_chunk(text: Seq<u8>, start: int, end: int)
    ensures
        has_content(text, (start, end)) <==> exists|c: int|
            0 <= c < decode_utf8(text.subrange(start, end)).len() && !is_white_space(
                #[trigger] decode_utf8(text.subrange(start, end))[c],
            ),
{
}

/// A chunk that holds any character that is not white space lies on a page.
pub proof fn law_text_lies_on_a_page(
    text: Seq<u8>,
    delim: Seq<u8>,
    pattern: Option<Seq<char>>,
    k: int,
    c: int,
)
    requires
        0 <= k < chunks(text, delim).len(),
        0 <= c < decode_utf8(
            text.subrange(chunks(text, delim)[k].0, chunks(text, delim)[k].1),
        ).len(),
        !is_white_space(
            decode_utf8(text.subrange(chunks(text, delim)[k].0, chunks(text, delim)[k].1))[c],
        ),
    ensures
        exists|j: int|
            0 <= j < grouped(text, delim, pattern).len() && (#[trigger] grouped(
                text,
                delim,
                pattern,
            )[j]).start <= chunks(text, delim)[k].0 && chunks(text, delim)[k].1 <= grouped(
                text,
                delim,
                pattern,
            )[j].end,
{
    law_nothing_is_dropped(text, delim, pattern, k);
}

/// A page holds a character that is not white space in its first chunk, so text of
/// white space alone gives no page.
pub proof fn law_white_space_gives_no_page(
    text: Seq<u8>,
    delim: Seq<u8>,
    pattern: Option<Seq<char>>,
    j: int,
)
    requires
        0 <= j < grouped(text, delim, pattern).len(),
    ensures
        exists|a: int, c: int|
            #![trigger chunks(text, delim)[a], decode_utf8(
                text.subrange(chunks(text, delim)[a].0, chunks(text, delim)[a].1),
            )[c]]
            0 <= a < chunks(text, delim).len() && grouped(text, delim, pattern)[j].start == chunks(
                text,
                delim,
            )[a].0 && 0 <= c < decode_utf8(
                text.subrange(chunks(text, delim)[a].0, chunks(text, delim)[a].1),
            ).len() && !is_white_space(
                decode_utf8(text.subrange(chunks(text, delim)[a].0, chunks(text, delim)[a].1))[c],
            ),
{
    law_cuts_stay(text, delim, pattern, j);
    let (a, b) = choose|a: int, b: int|
        0 <= a <= b < chunks(text, delim).len() && grouped(text, delim, pattern)[j].start == (
        #[trigger] chunks(text, delim)[a]).0 && grouped(text, delim, pattern)[j].end == (
        #[trigger] chunks(text, delim)[b]).1 && has_content(text, chunks(text, delim)[a])
            && has_content(text, chunks(text, delim)[b]);
    let range = chunks(text, delim)[a];
    let chars = decode_utf8(text.subrange(range.0, range.1));
    let c = choose|c: int| 0 <= c < chars.len() && !is_white_space(#[trigger] chars[c]);
    assert(!is_white_space(decode_utf8(text.subrange(range.0, range.1))[c]));
}

/// The title of a page is the whole text that group 1, or else the whole match,
/// has in the line that is read of each chunk with content on it: the first line
/// that holds a character that is not white space, without escape sequences.
pub proof fn law_title_is_the_captured_text(
    text: Seq<u8>,
    delim: Seq<u8>,
    source: Seq<char>,
    k: int,
    j: int,
    i: int,
    c: int,
)
    requires
        0 <= k < chunks(text, delim).len(),
        has_content(text, chunks(text, delim)[k]),
        0 <= j < grouped(text, delim, Some(source)).len(),
        grouped(text, delim, Some(source))[j].start <= chunks(text, delim)[k].0,
        chunks(text, delim)[k].1 <= grouped(text, delim, Some(source))[j].end,
        ({
            let ls = lines_of(text.subrange(chunks(text, delim)[k].0, chunks(text, delim)[k].1));
            &&& 0 <= i < ls.len()
            &&& 0 <= c < decode_utf8(ls[i]).len()
            &&& !is_white_space(decode_utf8(ls[i])[c])
            &&& forall|m: int, d: int|
                0 <= m < i && 0 <= d < decode_utf8(ls[m]).len() ==> is_white_space(
                    #[trigger] decode_utf8(ls[m])[d],
                )
        }),
    ensures
        ({
            let ls = lines_of(text.subrange(chunks(text, delim)[k].0, chunks(text, delim)[k].1));
            pages_of(text, grouped(text, delim, Some(source)))[j].title == key_of_groups(
                regex_captures(source, decode_utf8(stripped(ls[i]))),
            )
        }),
{
    let ls = lines_of(text.subrange(chunks(text, delim)[k].0, chunks(text, delim)[k].1));
    let before = ls.take(i);
    assert forall|m: int, d: int|
        0 <= m < before.len() && 0 <= d < decode_utf8(before[m]).len() implies is_white_space(
        #[trigger] decode_utf8(before[m])[d],
    ) by {
        assert(before[m] == ls[m]);
    }
    assert(before + seq![ls[i]] + ls.skip(i + 1) =~= ls);
    law_line_that_is_read(before, ls[i], ls.skip(i + 1), c);
    law_page_holds_one_key(text, delim, Some(source), k, j);
}

/// Chunks with content whose captured texts differ lie on different pages.
pub proof fn law_different_keys_different_pages(
    text: Seq<u8>,
    delim: Seq<u8>,
    source: Seq<char>,
    a: int,
    b: int,
    j: int,
)
    requires
        0 <= a < chunks(text, delim).len(),
        0 <= b < chunks(text, delim).len(),
        has_content(text, chunks(text, delim)[a]),
        has_content(text, chunks(text, delim)[b]),
        first_not_blank(
            lines_of(text.subrange(chunks(text, delim)[a].0, chunks(text, delim)[a].1)),
        ) is Some,
        first_not_blank(
            lines_of(text.subrange(chunks(text, delim)[b].0, chunks(text, delim)[b].1)),
        ) is Some,
        key_of_groups(
            regex_captures(
                source,
                decode_utf8(
                    stripped(
                        first_not_blank(
                            lines_of(
                                text.subrange(chunks(text, delim)[a].0, chunks(text, delim)[a].1),
                            ),
                        )->0,
                    ),
                ),
            ),
        ) != key_of_groups(
            regex_captures(
                source,
                decode_utf8(
                    stripped(
                        first_not_blank(
                            lines_of(
                                text.subrange(chunks(text, delim)[b].0, chunks(text, delim)[b].1),
                            ),
                        )->0,
                    ),
                ),
            ),
        ),
        0 <= j < grouped(text, delim, Some(source)).len(),
        grouped(text, delim, Some(source))[j].start <= chunks(text, delim)[a].0,
        chunks(text, delim)[a].1 <= grouped(text, delim, Some(source))[j].end,
    ensures
        !(grouped(text, delim, Some(source))[j].start <= chunks(text, delim)[b].0 && chunks(
            text,
            delim,
        )[b].1 <= grouped(text, delim, Some(source))[j].end),
{
    let places = grouped(text, delim, Some(source));
    law_page_holds_one_key(text, delim, Some(source), a, j);
    if places[j].start <= chunks(text, delim)[b].0 && chunks(text, delim)[b].1 <= places[j].end {
        law_page_holds_one_key(text, delim, Some(source), b, j);
    }
}

/// A page shows the lines of its stretch of the text, all of them, under the title
/// of its section.
pub proof fn law_page_shows_its_lines(text: Seq<u8>, sections: Seq<SectionView>, j: int)
    requires
        0 <= j < sections.len(),
    ensures
        pages_of(text, sections).len() == sections.len(),
        pages_of(text, sections)[j].lines == lines_of(
            text.subrange(sections[j].start, sections[j].end),
        ),
        pages_of(text, sections)[j].title == sections[j].title,
{
}

/// The lines of the pages are those of each page, one page after the other.
pub proof fn law_all_lines(pages: Seq<PageView>)
    ensures
        all_lines(pages) == Seq::new(pages.len(), |i: int| pages[i].lines).flatten(),
    decreases pages.len(),
{
    let parts = Seq::new(pages.len(), |i: int| pages[i].lines);
    if pages.len() > 0 {
        let init = pages.drop_last();
        law_all_lines(init);
        let before = Seq::new(init.len(), |i: int| init[i].lines);
        assert(parts =~= before.push(pages.last().lines));
        before.lemma_flatten_push(pages.last().lines);
    }
}

proof fn lemma_line_on_a_page(pages: Seq<PageView>, line: Seq<u8>) -> (at: (int, int))
    requires
        all_lines(pages).contains(line),
    ensures
        0 <= at.0 < pages.len(),
        0 <= at.1 < pages[at.0].lines.len(),
        pages[at.0].lines[at.1] == line,
    decreases pages.len(),
{
    let i = all_lines(pages).index_of(line);
    let init = pages.drop_last();
    let before = all_lines(init);
    if i < before.len() {
        assert(before[i] == line);
        let at = lemma_line_on_a_page(init, line);
        assert(init[at.0] == pages[at.0]);
        at
    } else {
        assert(pages.last().lines[i - before.len()] == line);
        (pages.len() - 1, i - before.len())
    }
}

/// A line of the text that holds any character that is not white space is a line
/// of some page, where the delimiter cuts between lines.
pub proof fn law_line_lies_on_a_page(
    text: Seq<u8>,
    delim: Seq<u8>,
    pattern: Option<Seq<char>>,
    i: int,
    c: int,
)
    requires
        valid_utf8(text),
        cuts_between_lines(delim),
        no_cut_line_endings(text, delim),
        0 <= i < lines_of(text).len(),
        0 <= c < decode_utf8(lines_of(text)[i]).len(),
        !is_white_space(decode_utf8(lines_of(text)[i])[c]),
    ensures
        exists|j: int, m: int|
            0 <= j < pages_of(text, grouped(text, delim, pattern)).len() && 0 <= m < pages_of(
                text,
                grouped(text, delim, pattern),
            )[j].lines.len() && #[trigger] pages_of(text, grouped(text, delim, pattern))[j].lines[m]
                == lines_of(text)[i],
{
    let pages = pages_of(text, grouped(text, delim, pattern));
    let line = lines_of(text)[i];
    law_no_line_is_dropped(text, delim, pattern);
    law_line_with_content_is_kept(lines_of(text), i, c);
    let f = |line: Seq<u8>| !is_blank_text(line);
    all_lines(pages).lemma_filter_contains_rev(f, line);
    let at = lemma_line_on_a_page(pages, line);
    assert(pages[at.0].lines[at.1] == line);
}

/// With the default delimiter, a line of text without carriage returns that holds
/// any character that is not white space is a line of some page.
pub proof fn law_default_split_shows_each_line(
    text: Seq<u8>,
    delim: Seq<u8>,
    pattern: Option<Seq<char>>,
    i: int,
    c: int,
)
    requires
        valid_utf8(text),
        delim == seq![0x0au8, 0x0au8],
        !text.contains(0x0d),
        0 <= i < lines_of(text).len(),
        0 <= c < decode_utf8(lines_of(text)[i]).len(),
        !is_white_space(decode_utf8(lines_of(text)[i])[c]),
    ensures
        exists|j: int, m: int|
            0 <= j < pages_of(text, grouped(text, delim, pattern)).len() && 0 <= m < pages_of(
                text,
                grouped(text, delim, pattern),
            )[j].lines.len() && #[trigger] pages_of(text, grouped(text, delim, pattern))[j].lines[m]
                == lines_of(text)[i],
{
    let pages = pages_of(text, grouped(text, delim, pattern));
    let line = lines_of(text)[i];
    law_default_split_drops_no_line(text, pattern);
    law_line_with_content_is_kept(lines_of(text), i, c);
    let f = |line: Seq<u8>| !is_blank_text(line);
    all_lines(pages).lemma_filter_contains_rev(f, line);
    let at = lemma_line_on_a_page(pages, line);
    assert(pages[at.0].lines[at.1] == line);
}

/// What a section, a page and byte ranges say is what their fields hold.
pub proof fn law_views_of_pages(section: Section, page: Page<'_>, ranges: Seq<(usize, usize)>)
    ensures
        section@.start == section.start,
        section@.end == section.end,
        section.title is None ==> section@.title is None,
        section.title is Some ==> section@.title == Some(section.title->0@),
        page.title is None ==> page@.title is None,
        page.title is Some ==> page@.title == Some(page.title->0@),
        page@.lines.len() == page.lines@.len(),
        forall|i: int|
            0 <= i < page.lines@.len() ==> #[trigger] page@.lines[i] == encode_utf8(
                page.lines@[i]@,
            ),
        ranges_view(ranges).len() == ranges.len(),
        forall|i: int|
            0 <= i < ranges.len() ==> (#[trigger] ranges_view(ranges)[i]).0 == ranges[i].0
                && ranges_view(ranges)[i].1 == ranges[i].1,
{
}

} // verus!
