//! Text as the pager reads it: slices, substring search, lines and white space.
//!
//! Offsets are byte offsets, so the text of a `str` is described by its UTF-8
//! bytes (`spec_bytes`). Where single characters matter its view is used.

use vstd::prelude::*;
use vstd::string::*;
use vstd::utf8::*;

verus! {

/// The byte sequence `pat` stands in `text` at offset `i`.
pub open spec fn occurs_at(text: Seq<u8>, pat: Seq<u8>, i: int) -> bool {
    &&& 0 <= i
    &&& i + pat.len() <= text.len()
    &&& text.subrange(i, i + pat.len()) =~= pat
}

/// The first offset at or after `start` where `pat` stands in `text`.
pub open spec fn find_from(text: Seq<u8>, pat: Seq<u8>, start: int) -> Option<int>
    decreases text.len() + 1 - start,
{
    if start < 0 || start + pat.len() > text.len() {
        None
    } else if occurs_at(text, pat, start) {
        Some(start)
    } else {
        find_from(text, pat, start + 1)
    }
}

/// `find_from` gives an occurrence, and there is none before it.
pub proof fn lemma_find_from(text: Seq<u8>, pat: Seq<u8>, start: int)
    requires
        0 <= start,
    ensures
        match find_from(text, pat, start) {
            Some(i) => {
                &&& start <= i
                &&& occurs_at(text, pat, i)
                &&& forall|k: int| start <= k < i ==> !occurs_at(text, pat, k)
            },
            None => forall|k: int| start <= k ==> !occurs_at(text, pat, k),
        },
    decreases text.len() + 1 - start,
{
    if start + pat.len() > text.len() {
    } else if occurs_at(text, pat, start) {
    } else {
        lemma_find_from(text, pat, start + 1);
    }
}

/// Encoding characters one after the other is encoding them together.
pub proof fn lemma_encode_concat(a: Seq<char>, b: Seq<char>)
    ensures
        encode_utf8(a + b) == encode_utf8(a) + encode_utf8(b),
    decreases a.len(),
{
    if a.len() == 0 {
        assert(a + b =~= b);
        assert(encode_utf8(a) + encode_utf8(b) =~= encode_utf8(b));
    } else {
        lemma_encode_concat(a.drop_first(), b);
        assert((a + b).drop_first() =~= a.drop_first() + b);
        assert(encode_utf8(a + b) =~= encode_utf8(a) + encode_utf8(b));
    }
}

/// An ASCII character among `chars` is a byte of their encoding.
pub proof fn lemma_encode_ascii_member(chars: Seq<char>, c: char)
    requires
        chars.contains(c),
        c <= '\u{7f}',
    ensures
        encode_utf8(chars).contains(c as u8),
{
    let i = chars.index_of(c);
    let tail = chars.skip(i);
    assert(chars =~= chars.take(i) + tail);
    lemma_encode_concat(chars.take(i), tail);
    assert(tail[0] == c);
    let v = c as u32;
    assert((v & 0x7F) as u8 == v as u8) by (bit_vector)
        requires
            v <= 0x7f,
    ;
    let at = encode_utf8(chars.take(i)).len() as int;
    assert(encode_utf8(tail)[0] == c as u8);
    assert(encode_utf8(chars)[at] == c as u8);
}

/// A `str` is the characters that its bytes encode.
pub proof fn lemma_str_view(s: &str)
    ensures
        valid_utf8(s.spec_bytes()),
        s@ == decode_utf8(s.spec_bytes()),
{
    encode_utf8_valid_utf8(s@);
    encode_utf8_decode_utf8(s@);
}

/// An ASCII byte in valid text starts and ends a character.
pub proof fn lemma_ascii_boundaries(bytes: Seq<u8>, k: int)
    requires
        valid_utf8(bytes),
        0 <= k < bytes.len(),
        bytes[k] < 0x80,
    ensures
        is_char_boundary(bytes, k),
        is_char_boundary(bytes, k + 1),
{
    is_char_boundary_iff_not_is_continuation_byte(bytes, k);
    if k + 1 == bytes.len() {
        is_char_boundary_start_end_of_seq(bytes);
    } else {
        valid_utf8_split(bytes, k);
        let tail = bytes.subrange(k, bytes.len() as int);
        assert(tail[0] == bytes[k]);
        assert(valid_utf8(pop_first_scalar(tail)));
        assert(pop_first_scalar(tail)[0] == bytes[k + 1]);
        is_char_boundary_iff_not_is_continuation_byte(bytes, k + 1);
    }
}

/// In valid text that starts with valid text, the end of the latter is a
/// character boundary.
pub proof fn lemma_valid_prefix_boundary(bytes: Seq<u8>, n: int)
    requires
        valid_utf8(bytes),
        0 <= n <= bytes.len(),
        valid_utf8(bytes.subrange(0, n)),
    ensures
        is_char_boundary(bytes, n),
    decreases n,
{
    if n > 0 {
        let pre = bytes.subrange(0, n);
        let w = length_of_first_scalar(pre);
        assert(pre[0] == bytes[0]);
        assert(length_of_first_scalar(bytes) == w);
        assert(pop_first_scalar(pre) =~= pop_first_scalar(bytes).subrange(0, n - w));
        lemma_valid_prefix_boundary(pop_first_scalar(bytes), n - w);
    }
}

/// Being a boundary does not depend on what was cut off before at a boundary.
pub proof fn lemma_boundary_shift(bytes: Seq<u8>, a: int, b: int)
    requires
        valid_utf8(bytes),
        0 <= a <= b <= bytes.len(),
        is_char_boundary(bytes, a),
    ensures
        valid_utf8(bytes.subrange(a, bytes.len() as int)),
        is_char_boundary(bytes.subrange(a, bytes.len() as int), b - a) == is_char_boundary(
            bytes,
            b,
        ),
{
    let tail = bytes.subrange(a, bytes.len() as int);
    valid_utf8_split(bytes, a);
    if b < bytes.len() {
        assert(tail[b - a] == bytes[b]);
        is_char_boundary_iff_not_is_continuation_byte(bytes, b);
        is_char_boundary_iff_not_is_continuation_byte(tail, b - a);
    } else {
        is_char_boundary_start_end_of_seq(bytes);
        is_char_boundary_start_end_of_seq(tail);
    }
}

/// Cut out between two boundaries, valid text stays valid.
pub proof fn lemma_slice_valid(bytes: Seq<u8>, a: int, b: int)
    requires
        valid_utf8(bytes),
        0 <= a <= b <= bytes.len(),
        is_char_boundary(bytes, a),
        is_char_boundary(bytes, b),
    ensures
        valid_utf8(bytes.subrange(a, b)),
{
    lemma_boundary_shift(bytes, a, b);
    let tail = bytes.subrange(a, bytes.len() as int);
    valid_utf8_split(tail, b - a);
    assert(tail.subrange(0, b - a) =~= bytes.subrange(a, b));
}

/// A non-empty valid pattern that stands in valid text stands between two
/// character boundaries.
pub proof fn lemma_occurrence_boundaries(text: Seq<u8>, pat: Seq<u8>, i: int)
    requires
        valid_utf8(text),
        valid_utf8(pat),
        pat.len() > 0,
        occurs_at(text, pat, i),
    ensures
        is_char_boundary(text, i),
        is_char_boundary(text, i + pat.len()),
{
    assert(text.subrange(i, i + pat.len()) == pat);
    assert(pat[0] == text[i]);
    is_char_boundary_start_end_of_seq(pat);
    is_char_boundary_iff_not_is_continuation_byte(pat, 0);
    is_char_boundary_iff_not_is_continuation_byte(text, i);
    lemma_boundary_shift(text, i, i + pat.len());
    let tail = text.subrange(i, text.len() as int);
    assert(tail.subrange(0, pat.len() as int) =~= pat);
    lemma_valid_prefix_boundary(tail, pat.len() as int);
}

/// The part of `s` from byte `start` up to byte `end`.
pub fn slice(s: &str, start: usize, end: usize) -> (part: &str)
    requires
        start <= end <= s.spec_bytes().len(),
        is_char_boundary(s.spec_bytes(), start as int),
        is_char_boundary(s.spec_bytes(), end as int),
    ensures
        part.spec_bytes() == s.spec_bytes().subrange(start as int, end as int),
{
    proof {
        lemma_str_view(s);
        lemma_boundary_shift(s.spec_bytes(), start as int, end as int);
    }
    let tail = s.split_at(start).1;
    let part = tail.split_at(end - start).0;
    assert(part.spec_bytes() =~= s.spec_bytes().subrange(start as int, end as int));
    part
}

/// `pat` stands in `text` at offset `i`.
fn matches_at(text: &[u8], pat: &[u8], i: usize) -> (found: bool)
    requires
        i + pat@.len() <= text@.len(),
    ensures
        found == occurs_at(text@, pat@, i as int),
{
    let n: usize = text.len();
    let mut k: usize = 0;
    while k < pat.len()
        invariant
            k <= pat@.len(),
            i + pat@.len() <= text@.len(),
            n == text@.len(),
            forall|j: int| 0 <= j < k ==> text@[i + j] == pat@[j],
        decreases pat@.len() - k,
    {
        if text[i + k] != pat[k] {
            assert(text@.subrange(i as int, i + pat@.len())[k as int] != pat@[k as int]);
            return false;
        }
        k = k + 1;
    }
    true
}

/// The first offset at or after `start` where `pat` stands in `text`.
pub fn find(text: &[u8], pat: &[u8], start: usize) -> (at: Option<usize>)
    ensures
        match at {
            Some(i) => find_from(text@, pat@, start as int) == Some(i as int),
            None => find_from(text@, pat@, start as int) is None,
        },
{
    let mut i: usize = start;
    while i <= text.len() && pat.len() <= text.len() - i
        invariant
            start <= i,
            find_from(text@, pat@, start as int) == find_from(text@, pat@, i as int),
        decreases text@.len() + 1 - i,
    {
        if matches_at(text, pat, i) {
            return Some(i);
        }
        if i == text.len() {
            return None;
        }
        i = i + 1;
    }
    None
}

/// The line that ends before a line feed: one carriage return right before the
/// line feed belongs to the line ending.
pub open spec fn without_cr(line: Seq<u8>) -> Seq<u8> {
    if line.len() > 0 && line.last() == 0x0d {
        line.drop_last()
    } else {
        line
    }
}

/// The lines of `text`. A line ends with a line feed, or a carriage return and a
/// line feed, neither of which belongs to it; the last line need not end so.
pub open spec fn lines_of(text: Seq<u8>) -> Seq<Seq<u8>>
    decreases text.len(),
{
    if text.len() == 0 {
        Seq::empty()
    } else {
        match find_from(text, seq![0x0au8], 0) {
            Some(i) => {
                proof {
                    lemma_find_from(text, seq![0x0au8], 0);
                }
                seq![without_cr(text.take(i))] + lines_of(text.skip(i + 1))
            },
            None => seq![text],
        }
    }
}

/// The bytes of each of `lines`.
pub open spec fn bytes_of(lines: Seq<&str>) -> Seq<Seq<u8>> {
    Seq::new(lines.len(), |i: int| lines[i].spec_bytes())
}

/// Splits `s` into its lines.
pub fn lines<'a>(s: &'a str) -> (out: Vec<&'a str>)
    ensures
        bytes_of(out@) == lines_of(s.spec_bytes()),
{
    let bytes = s.as_bytes();
    let newline: [u8; 1] = [0x0a];
    let mut out: Vec<&'a str> = Vec::new();
    let mut start: usize = 0;
    let n: usize = bytes.len();
    let ghost text = s.spec_bytes();
    proof {
        lemma_str_view(s);
        assert(text.skip(0) =~= text);
        assert(newline@ =~= seq![0x0au8]);
        assert(bytes_of(out@) + lines_of(text.skip(0)) =~= lines_of(text));
    }
    while start < n
        invariant
            start <= n,
            n == text.len(),
            bytes@ == text,
            text == s.spec_bytes(),
            valid_utf8(text),
            newline@ == seq![0x0au8],
            is_char_boundary(text, start as int),
            bytes_of(out@) + lines_of(text.skip(start as int)) == lines_of(text),
        decreases n - start,
    {
        let ghost rest = text.skip(start as int);
        proof {
            lemma_find_skip(text, newline@, start as int);
            lemma_find_from(text, newline@, start as int);
        }
        match find(bytes, newline.as_slice(), start) {
            Some(i) => {
                proof {
                    assert(text.subrange(i as int, i + 1)[0] == 0x0a);
                    lemma_ascii_boundaries(text, i as int);
                    let line = text.subrange(start as int, i as int);
                    if i > start && text[i - 1] == 0x0d {
                        lemma_ascii_boundaries(text, i - 1);
                        assert(line.drop_last() =~= text.subrange(start as int, i - 1));
                    }
                    assert(rest.skip(i - start + 1) =~= text.skip(i + 1));
                    assert(rest.take(i - start) =~= line);
                }
                let end: usize = if i > start && bytes[i - 1] == 0x0d {
                    i - 1
                } else {
                    i
                };
                let line = slice(s, start, end);
                let ghost before = out@;
                out.push(line);
                proof {
                    assert(line.spec_bytes() == without_cr(rest.take(i - start)));
                    assert(bytes_of(out@) =~= bytes_of(before).push(line.spec_bytes()));
                    assert(bytes_of(out@) + lines_of(text.skip(i + 1)) =~= bytes_of(before) + (
                    seq![line.spec_bytes()] + lines_of(text.skip(i + 1))));
                }
                start = i + 1;
            },
            None => {
                proof {
                    is_char_boundary_start_end_of_seq(text);
                    assert(rest =~= text.subrange(start as int, n as int));
                }
                let line = slice(s, start, n);
                let ghost before = out@;
                out.push(line);
                assert(bytes_of(out@) =~= bytes_of(before) + seq![rest]);
                return out;
            },
        }
    }
    assert(text.skip(start as int).len() == 0);
    assert(bytes_of(out@) =~= lines_of(text));
    out
}

/// Searching from `start` is searching what is left after `start`.
pub proof fn lemma_find_skip(text: Seq<u8>, pat: Seq<u8>, start: int)
    requires
        0 <= start <= text.len(),
    ensures
        find_from(text, pat, start) == match find_from(text.skip(start), pat, 0) {
            Some(i) => Some(start + i),
            None => None::<int>,
        },
{
    lemma_find_skip_from(text, pat, start, 0);
}

proof fn lemma_find_skip_from(text: Seq<u8>, pat: Seq<u8>, start: int, at: int)
    requires
        0 <= start <= text.len(),
        0 <= at,
    ensures
        find_from(text, pat, start + at) == match find_from(text.skip(start), pat, at) {
            Some(i) => Some(start + i),
            None => None::<int>,
        },
    decreases text.len() + 1 - start - at,
{
    let rest = text.skip(start);
    if start + at + pat.len() <= text.len() {
        assert(rest.subrange(at, at + pat.len()) =~= text.subrange(
            start + at,
            start + at + pat.len(),
        ));
        lemma_find_skip_from(text, pat, start, at + 1);
    }
}

/// The characters with the Unicode property `White_Space`.
pub open spec fn is_white_space(c: char) -> bool {
    ||| '\u{9}' <= c <= '\u{d}'
    ||| c == ' '
    ||| c == '\u{85}'
    ||| c == '\u{a0}'
    ||| c == '\u{1680}'
    ||| '\u{2000}' <= c <= '\u{200a}'
    ||| c == '\u{2028}'
    ||| c == '\u{2029}'
    ||| c == '\u{202f}'
    ||| c == '\u{205f}'
    ||| c == '\u{3000}'
}

/// Whether `c` has the Unicode property `White_Space`.
pub fn white_space(c: char) -> (yes: bool)
    ensures
        yes == is_white_space(c),
{
    ('\u{9}' <= c && c <= '\u{d}') || c == ' ' || c == '\u{85}' || c == '\u{a0}' || c == '\u{1680}'
        || ('\u{2000}' <= c && c <= '\u{200a}') || c == '\u{2028}' || c == '\u{2029}' || c
        == '\u{202f}' || c == '\u{205f}' || c == '\u{3000}'
}

/// Nothing but white space.
pub open spec fn is_blank(chars: Seq<char>) -> bool {
    forall|i: int| 0 <= i < chars.len() ==> is_white_space(#[trigger] chars[i])
}

/// Whether `s` holds nothing but white space.
pub fn blank(s: &str) -> (yes: bool)
    ensures
        yes == is_blank(s@),
{
    for c in it: s.chars()
        invariant
            it.seq() == s@,
            forall|i: int| 0 <= i < it.index() ==> is_white_space(#[trigger] s@[i]),
    {
        if !white_space(c) {
            assert(!is_white_space(s@[it.index()]));
            return false;
        }
    }
    true
}

/// The parts, with `sep` between neighbours.
pub open spec fn joined(parts: Seq<Seq<u8>>, sep: Seq<u8>) -> Seq<u8>
    decreases parts.len(),
{
    if parts.len() == 0 {
        Seq::empty()
    } else if parts.len() == 1 {
        parts[0]
    } else {
        parts[0] + sep + joined(parts.skip(1), sep)
    }
}

/// Lines lose nothing but their ends: text in which no carriage return stands
/// before a line feed is its lines, joined by line feeds, with one more at the end
/// if it ends with one.
pub proof fn law_lines_keep_the_text(text: Seq<u8>)
    requires
        forall|i: int|
            0 <= i < text.len() - 1 && #[trigger] text[i] == 0x0d ==> text[i + 1] != 0x0a,
    ensures
        text == joined(lines_of(text), seq![0x0au8]) + if text.len() > 0 && text.last() == 0x0a {
            seq![0x0au8]
        } else {
            Seq::empty()
        },
    decreases text.len(),
{
    let nl = seq![0x0au8];
    let ls = lines_of(text);
    if text.len() > 0 {
        lemma_find_from(text, nl, 0);
        match find_from(text, nl, 0) {
            Some(i) => {
                let first = text.take(i);
                let rest = text.skip(i + 1);
                assert(text.subrange(i, i + 1)[0] == 0x0a);
                if first.len() > 0 {
                    assert(first.last() == text[i - 1]);
                }
                assert forall|k: int|
                    0 <= k < rest.len() - 1 && #[trigger] rest[k] == 0x0d implies rest[k + 1]
                    != 0x0a by {
                    assert(text[i + 1 + k] == rest[k]);
                }
                law_lines_keep_the_text(rest);
                assert(ls.skip(1) =~= lines_of(rest));
                if rest.len() == 0 {
                    assert(ls =~= seq![first]);
                    assert(text =~= first + nl);
                } else {
                    assert(lines_of(rest).len() > 0);
                    assert(rest.last() == text.last());
                    assert(text =~= first + nl + rest);
                }
            },
            None => {
                let last = text.len() - 1;
                if text[last] == 0x0a {
                    assert(text.subrange(last, last + 1) =~= nl);
                    assert(occurs_at(text, nl, last));
                }
                assert(joined(ls, nl) =~= text);
            },
        }
    }
}

/// Whether `a` and `b` hold the same text.
pub fn same_text(a: &str, b: &str) -> (same: bool)
    ensures
        same == (a@ == b@),
{
    let x = a.as_bytes();
    let y = b.as_bytes();
    proof {
        lemma_str_view(a);
        lemma_str_view(b);
    }
    if x.len() != y.len() {
        return false;
    }
    let same = matches_at(x, y, 0);
    proof {
        assert(x@.subrange(0, y@.len() as int) =~= x@);
    }
    same
}

/// A search gives the first offset from `start` on at which all bytes of `pat`
/// stand one after the other, and none where there is no such offset.
pub proof fn law_find_gives_the_first(text: Seq<u8>, pat: Seq<u8>, start: int)
    requires
        0 <= start,
    ensures
        match find_from(text, pat, start) {
            Some(i) => {
                &&& start <= i <= text.len() - pat.len()
                &&& forall|j: int| 0 <= j < pat.len() ==> #[trigger] text[i + j] == pat[j]
                &&& forall|k: int|
                    start <= k < i && k + pat.len() <= text.len() ==> #[trigger] text.subrange(
                        k,
                        k + pat.len(),
                    ) != pat
            },
            None => forall|k: int|
                start <= k && k + pat.len() <= text.len() ==> #[trigger] text.subrange(
                    k,
                    k + pat.len(),
                ) != pat,
        },
{
    lemma_find_from(text, pat, start);
    match find_from(text, pat, start) {
        Some(i) => {
            assert forall|j: int| 0 <= j < pat.len() implies #[trigger] text[i + j] == pat[j] by {
                assert(text.subrange(i, i + pat.len())[j] == pat[j]);
            }
            assert forall|k: int|
                start <= k < i && k + pat.len() <= text.len() implies #[trigger] text.subrange(
                k,
                k + pat.len(),
            ) != pat by {
                assert(!occurs_at(text, pat, k));
            }
        },
        None => {
            assert forall|k: int|
                start <= k && k + pat.len() <= text.len() implies #[trigger] text.subrange(
                k,
                k + pat.len(),
            ) != pat by {
                assert(!occurs_at(text, pat, k));
            }
        },
    }
}

/// A pattern stands at an offset exactly where the text there is the pattern.
pub proof fn law_occurrence(text: Seq<u8>, pat: Seq<u8>, i: int)
    ensures
        occurs_at(text, pat, i) <==> 0 <= i && i + pat.len() <= text.len() && text.subrange(
            i,
            i + pat.len(),
        ) == pat,
{
}

/// The text is its lines, each followed by its ending: a line feed or a carriage
/// return and a line feed, or nothing after a last line that is not empty. No line
/// holds a line feed, and a carriage return before a line feed is of the ending.
pub proof fn law_lines_and_endings(text: Seq<u8>) -> (endings: Seq<Seq<u8>>)
    ensures
        endings.len() == lines_of(text).len(),
        text == Seq::new(endings.len(), |i: int| lines_of(text)[i] + endings[i]).flatten(),
        forall|i: int| 0 <= i < endings.len() ==> !(#[trigger] lines_of(text)[i]).contains(0x0a),
        forall|i: int|
            0 <= i < endings.len() ==> {
                ||| #[trigger] endings[i] == seq![0x0du8, 0x0au8]
                ||| endings[i] == seq![0x0au8] && !(lines_of(text)[i].len() > 0
                    && lines_of(text)[i].last() == 0x0d)
                ||| endings[i] == Seq::<u8>::empty() && i == endings.len() - 1
                    && lines_of(text)[i].len() > 0
            },
    decreases text.len(),
{
    let nl = seq![0x0au8];
    let ls = lines_of(text);
    if text.len() == 0 {
        let endings = Seq::<Seq<u8>>::empty();
        assert(Seq::new(endings.len(), |i: int| ls[i] + endings[i]) =~= Seq::<Seq<u8>>::empty());
        endings
    } else {
        lemma_find_from(text, nl, 0);
        assert forall|k: int| 0 <= k < text.len() && #[trigger] text[k] == 0x0a implies occurs_at(
            text,
            nl,
            k,
        ) by {
            assert(text.subrange(k, k + 1) =~= nl);
        }
        match find_from(text, nl, 0) {
            Some(i) => {
                let rest = text.skip(i + 1);
                let more = law_lines_and_endings(rest);
                let cut = text.take(i);
                let line = without_cr(cut);
                let ending = if cut.len() > 0 && cut.last() == 0x0d {
                    seq![0x0du8, 0x0au8]
                } else {
                    nl
                };
                let endings = seq![ending] + more;
                assert(text.subrange(i, i + 1)[0] == 0x0a);
                assert(ls =~= seq![line] + lines_of(rest));
                let rows = Seq::new(endings.len(), |k: int| ls[k] + endings[k]);
                let rest_rows = Seq::new(more.len(), |k: int| lines_of(rest)[k] + more[k]);
                assert(rows.drop_first() =~= rest_rows);
                assert(rows.first() == line + ending);
                assert(line + ending =~= text.take(i + 1));
                assert(text.take(i + 1) + rest =~= text);
                assert forall|k: int| 0 <= k < endings.len() implies !(
                #[trigger] ls[k]).contains(0x0a) by {
                    if k == 0 {
                        assert forall|m: int| 0 <= m < line.len() implies line[m] != 0x0a by {
                            assert(line[m] == text[m]);
                        }
                    } else {
                        assert(ls[k] == lines_of(rest)[k - 1]);
                    }
                }
                assert forall|k: int| 0 <= k < endings.len() implies {
                    ||| #[trigger] endings[k] == seq![0x0du8, 0x0au8]
                    ||| endings[k] == seq![0x0au8] && !(ls[k].len() > 0 && ls[k].last() == 0x0d)
                    ||| endings[k] == Seq::<u8>::empty() && k == endings.len() - 1 && ls[k].len()
                        > 0
                } by {
                    if k > 0 {
                        assert(endings[k] == more[k - 1]);
                        assert(ls[k] == lines_of(rest)[k - 1]);
                    }
                }
                endings
            },
            None => {
                let endings = seq![Seq::<u8>::empty()];
                let rows = Seq::new(endings.len(), |k: int| ls[k] + endings[k]);
                assert(rows =~= seq![text + Seq::<u8>::empty()]);
                assert(text + Seq::<u8>::empty() =~= text);
                rows.lemma_flatten_one_element();
                endings
            },
        }
    }
}

/// White space is the characters of these code points and no others.
pub proof fn law_white_space_code_points(c: char)
    ensures
        is_white_space(c) <==> {
            let p = c as u32;
            ||| 0x9 <= p <= 0xd
            ||| p == 0x20
            ||| p == 0x85
            ||| p == 0xa0
            ||| p == 0x1680
            ||| 0x2000 <= p <= 0x200a
            ||| 0x2028 <= p <= 0x2029
            ||| p == 0x202f
            ||| p == 0x205f
            ||| p == 0x3000
        },
{
}

/// Text is blank exactly where none of its characters is anything but white space.
pub proof fn law_blank_is_all_white_space(chars: Seq<char>)
    ensures
        is_blank(chars) <==> !(exists|i: int|
            0 <= i < chars.len() && !is_white_space(#[trigger] chars[i])),
{
}

/// One character that is not white space makes text not blank, whatever stands
/// before and after it; white space on either side makes no difference.
pub proof fn law_one_character_is_content(before: Seq<char>, c: char, after: Seq<char>)
    ensures
        !is_white_space(c) ==> !is_blank(before + seq![c] + after),
        is_white_space(c) ==> is_blank(before + seq![c] + after) == (is_blank(before) && is_blank(
            after,
        )),
{
    let all = before + seq![c] + after;
    assert(all[before.len() as int] == c);
    if is_blank(all) {
        assert forall|i: int| 0 <= i < before.len() implies is_white_space(#[trigger] before[i]) by {
            assert(all[i] == before[i]);
        }
        assert forall|i: int| 0 <= i < after.len() implies is_white_space(#[trigger] after[i]) by {
            assert(all[before.len() + 1 + i] == after[i]);
        }
    }
}

/// The bytes of lines are those of each line, in order.
pub proof fn law_bytes_of_lines(lines: Seq<&str>)
    ensures
        bytes_of(lines).len() == lines.len(),
        forall|i: int|
            0 <= i < lines.len() ==> #[trigger] bytes_of(lines)[i] == encode_utf8(lines[i]@),
{
}

} // verus!
