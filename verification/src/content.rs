//! Lines with content: what blank text between stretches of text does not change.

use vstd::prelude::*;
#[allow(unused_imports)]
use vstd::utf8::*;

#[allow(unused_imports)]
use crate::text::{
    find_from, is_blank, is_white_space, lemma_ascii_boundaries, lemma_encode_concat,
    lemma_find_from, lines_of, occurs_at, without_cr,
};

verus! {

/// Text that holds nothing but white space.
pub open spec fn is_blank_text(text: Seq<u8>) -> bool {
    is_blank(decode_utf8(text))
}

/// The lines that are not blank, in order.
pub open spec fn lines_with_content(lines: Seq<Seq<u8>>) -> Seq<Seq<u8>> {
    lines.filter(|line: Seq<u8>| !is_blank_text(line))
}

/// The lines with content of two stretches of lines are those of the first and
/// then those of the second.
pub proof fn lemma_content_concat(a: Seq<Seq<u8>>, b: Seq<Seq<u8>>)
    ensures
        lines_with_content(a + b) == lines_with_content(a) + lines_with_content(b),
{
    Seq::filter_distributes_over_add(a, b, |line: Seq<u8>| !is_blank_text(line));
}

/// A single line is kept unless it is blank.
pub proof fn lemma_content_single(line: Seq<u8>)
    ensures
        lines_with_content(seq![line]) == if is_blank_text(line) {
            Seq::<Seq<u8>>::empty()
        } else {
            seq![line]
        },
{
    reveal(Seq::filter);
    let f = |line: Seq<u8>| !is_blank_text(line);
    let none = seq![line].drop_last();
    assert(none =~= Seq::<Seq<u8>>::empty());
    assert(none.filter(f) =~= Seq::<Seq<u8>>::empty());
    assert(lines_with_content(seq![line]) =~= if is_blank_text(line) {
        Seq::<Seq<u8>>::empty()
    } else {
        seq![line]
    });
}

/// Nothing is blank.
pub proof fn lemma_empty_is_blank()
    ensures
        is_blank_text(Seq::empty()),
        lines_with_content(lines_of(Seq::empty())) == Seq::<Seq<u8>>::empty(),
{
    reveal(Seq::filter);
    assert(decode_utf8(Seq::<u8>::empty()).len() == 0);
}

/// Valid text is blank exactly where both of its valid parts are.
pub proof fn lemma_blank_concat(a: Seq<u8>, b: Seq<u8>)
    requires
        valid_utf8(a),
        valid_utf8(b),
    ensures
        valid_utf8(a + b),
        is_blank_text(a + b) <==> is_blank_text(a) && is_blank_text(b),
{
    let x = decode_utf8(a);
    let y = decode_utf8(b);
    valid_utf8_concat(a, b);
    decode_utf8_encode_utf8(a);
    decode_utf8_encode_utf8(b);
    lemma_encode_concat(x, y);
    encode_utf8_decode_utf8(x + y);
    assert(decode_utf8(a + b) == x + y);
    if is_blank(x + y) {
        assert forall|i: int| 0 <= i < x.len() implies is_white_space(#[trigger] x[i]) by {
            assert((x + y)[i] == x[i]);
        }
        assert forall|i: int| 0 <= i < y.len() implies is_white_space(#[trigger] y[i]) by {
            assert((x + y)[x.len() + i] == y[i]);
        }
    }
}

/// Of blank text that is cut at a line feed, the line and what follows are blank.
proof fn lemma_blank_first_line(text: Seq<u8>, i: int)
    requires
        valid_utf8(text),
        is_blank_text(text),
        0 <= i < text.len(),
        text[i] == 0x0a,
    ensures
        valid_utf8(text.skip(i + 1)),
        is_blank_text(text.skip(i + 1)),
        is_blank_text(without_cr(text.take(i))),
{
    let line = text.take(i);
    let rest = text.skip(i + 1);
    lemma_ascii_boundaries(text, i);
    valid_utf8_split(text, i);
    valid_utf8_split(text, i + 1);
    assert(line =~= text.subrange(0, i));
    assert(rest =~= text.subrange(i + 1, text.len() as int));
    lemma_blank_concat(text.subrange(0, i + 1), rest);
    assert(text.subrange(0, i + 1) + rest =~= text);
    lemma_blank_concat(line, text.subrange(i, text.len() as int));
    assert(line + text.subrange(i, text.len() as int) =~= text);
    if line.len() > 0 && line.last() == 0x0d {
        let k = line.len() - 1;
        lemma_ascii_boundaries(line, k);
        valid_utf8_split(line, k);
        lemma_blank_concat(line.subrange(0, k), line.subrange(k, line.len() as int));
        assert(line.subrange(0, k) + line.subrange(k, line.len() as int) =~= line);
        assert(line.drop_last() =~= line.subrange(0, k));
    }
}

/// Up to its first line feed the text is one line.
proof fn lemma_first_newline(text: Seq<u8>, i: int)
    requires
        0 <= i < text.len(),
        text[i] == 0x0a,
        forall|k: int| 0 <= k < i ==> text[k] != 0x0a,
    ensures
        lines_of(text) == seq![without_cr(text.take(i))] + lines_of(text.skip(i + 1)),
{
    let nl = seq![0x0au8];
    lemma_find_from(text, nl, 0);
    assert(text.subrange(i, i + 1) =~= nl);
    assert(occurs_at(text, nl, i));
    let f = find_from(text, nl, 0)->0;
    assert(text.subrange(f, f + 1)[0] == text[f]);
}

/// A line feed, if there is one: the first of them.
proof fn lemma_newline_in(text: Seq<u8>) -> (at: Option<int>)
    ensures
        match at {
            Some(i) => {
                &&& 0 <= i < text.len()
                &&& text[i] == 0x0a
                &&& forall|k: int| 0 <= k < i ==> text[k] != 0x0a
            },
            None => {
                &&& forall|k: int| 0 <= k < text.len() ==> text[k] != 0x0a
                &&& text.len() > 0 ==> lines_of(text) == seq![text]
            },
        },
{
    let nl = seq![0x0au8];
    lemma_find_from(text, nl, 0);
    assert forall|k: int| 0 <= k < text.len() && #[trigger] text[k] == 0x0a implies occurs_at(
        text,
        nl,
        k,
    ) by {
        assert(text.subrange(k, k + 1) =~= nl);
    }
    match find_from(text, nl, 0) {
        Some(i) => {
            assert(text.subrange(i, i + 1)[0] == text[i]);
            Some(i)
        },
        None => None,
    }
}

/// Blank text has no line with content.
pub proof fn lemma_blank_lines(text: Seq<u8>)
    requires
        valid_utf8(text),
        is_blank_text(text),
    ensures
        lines_with_content(lines_of(text)) == Seq::<Seq<u8>>::empty(),
    decreases text.len(),
{
    lemma_empty_is_blank();
    match lemma_newline_in(text) {
        Some(i) => {
            let line = without_cr(text.take(i));
            let rest = text.skip(i + 1);
            lemma_first_newline(text, i);
            lemma_blank_first_line(text, i);
            lemma_blank_lines(rest);
            lemma_content_single(line);
            lemma_content_concat(seq![line], lines_of(rest));
        },
        None => {
            if text.len() > 0 {
                lemma_content_single(text);
            } else {
                assert(text =~= Seq::<u8>::empty());
            }
        },
    }
}

/// Blank text that ends with a line feed adds no line with content to what
/// follows it.
pub proof fn lemma_blank_lines_before(gap: Seq<u8>, rest: Seq<u8>)
    requires
        valid_utf8(gap),
        is_blank_text(gap),
        gap.len() == 0 || gap.last() == 0x0a,
    ensures
        lines_with_content(lines_of(gap + rest)) == lines_with_content(lines_of(rest)),
    decreases gap.len(),
{
    if gap.len() == 0 {
        assert(gap + rest =~= rest);
    } else {
        let at = lemma_newline_in(gap);
        assert(gap[gap.len() - 1] == 0x0a);
        let i = at->0;
        let all = gap + rest;
        let line = without_cr(gap.take(i));
        let left = gap.skip(i + 1);
        lemma_blank_first_line(gap, i);
        lemma_first_newline(all, i);
        assert(all.take(i) =~= gap.take(i));
        assert(all.skip(i + 1) =~= left + rest);
        lemma_blank_lines_before(left, rest);
        lemma_content_single(line);
        lemma_content_concat(seq![line], lines_of(left + rest));
        assert(Seq::<Seq<u8>>::empty() + lines_with_content(lines_of(left + rest))
            =~= lines_with_content(lines_of(left + rest)));
    }
}

/// Text that is cut at a line feed, with no carriage return before it, has the
/// lines with content of both parts.
pub proof fn lemma_lines_at_newline(a: Seq<u8>, b: Seq<u8>)
    requires
        a.len() == 0 || a.last() != 0x0d,
    ensures
        lines_with_content(lines_of(a + seq![0x0au8] + b)) == lines_with_content(lines_of(a))
            + lines_with_content(lines_of(b)),
    decreases a.len(),
{
    let all = a + seq![0x0au8] + b;
    lemma_empty_is_blank();
    match lemma_newline_in(a) {
        Some(i) => {
            let line = without_cr(a.take(i));
            let left = a.skip(i + 1);
            lemma_first_newline(a, i);
            lemma_first_newline(all, i);
            assert(all.take(i) =~= a.take(i));
            assert(all.skip(i + 1) =~= left + seq![0x0au8] + b);
            lemma_lines_at_newline(left, b);
            lemma_content_concat(seq![line], lines_of(left));
            lemma_content_concat(seq![line], lines_of(left + seq![0x0au8] + b));
            assert(lines_with_content(lines_of(all)) =~= lines_with_content(lines_of(a))
                + lines_with_content(lines_of(b)));
        },
        None => {
            let n = a.len() as int;
            assert forall|k: int| 0 <= k < n implies all[k] != 0x0a by {
                assert(all[k] == a[k]);
            }
            lemma_first_newline(all, n);
            assert(all.take(n) =~= a);
            assert(all.skip(n + 1) =~= b);
            lemma_content_single(a);
            lemma_content_concat(seq![a], lines_of(b));
            if n == 0 {
                assert(a =~= Seq::<u8>::empty());
            }
            assert(lines_with_content(lines_of(all)) =~= lines_with_content(lines_of(a))
                + lines_with_content(lines_of(b)));
        },
    }
}

/// The lines with content are those lines that hold a character that is not white
/// space, all of them and in their order.
pub proof fn law_content_is_a_character(lines: Seq<Seq<u8>>)
    ensures
        lines_with_content(lines) == lines.filter(
            |line: Seq<u8>|
                exists|i: int|
                    0 <= i < decode_utf8(line).len() && !is_white_space(
                        #[trigger] decode_utf8(line)[i],
                    ),
        ),
    decreases lines.len(),
{
    reveal(Seq::filter);
    if lines.len() > 0 {
        law_content_is_a_character(lines.drop_last());
    }
}

/// A line with a character that is not white space is among the lines with
/// content.
pub proof fn law_line_with_content_is_kept(lines: Seq<Seq<u8>>, i: int, c: int)
    requires
        0 <= i < lines.len(),
        0 <= c < decode_utf8(lines[i]).len(),
        !is_white_space(decode_utf8(lines[i])[c]),
    ensures
        lines_with_content(lines).contains(lines[i]),
{
    let f = |line: Seq<u8>| !is_blank_text(line);
    assert(f(lines[i]));
    lines.lemma_filter_contains(f, i);
}

} // verus!
