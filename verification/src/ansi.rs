//! ANSI escape sequences: taking them out of a line, and carrying the text
//! attributes that they set from one line to the next.

use std::borrow::Cow;
use vstd::prelude::*;
use vstd::string::*;
use vstd::utf8::*;

use crate::text::{find, slice};
#[allow(unused_imports)]
use crate::text::{
    bytes_of, lemma_ascii_boundaries, lemma_encode_concat, lemma_find_from, lemma_str_view,
    occurs_at,
};

verus! {

/// The byte that starts an escape sequence.
pub const ESC: u8 = 0x1b;

/// A byte that ends a control sequence (`ESC [ .. final`).
pub open spec fn is_final_byte(b: u8) -> bool {
    0x40 <= b <= 0x7e
}

/// The first offset at or after `i` of a final byte, the length of `s` if there
/// is none.
pub open spec fn final_byte_from(s: Seq<u8>, i: int) -> int
    decreases s.len() - i,
{
    if i >= s.len() {
        s.len() as int
    } else if is_final_byte(s[i]) {
        i
    } else {
        final_byte_from(s, i + 1)
    }
}

/// The length of the escape sequence at the start of `s`. A control sequence
/// runs to its first final byte, or to the end of `s` without one; anything else
/// is the escape byte alone.
pub open spec fn escape_width(s: Seq<u8>) -> int {
    if s.len() < 2 || s[1] != 0x5b {
        1
    } else {
        let last = final_byte_from(s, 2);
        if last < s.len() {
            last + 1
        } else {
            s.len() as int
        }
    }
}

/// `final_byte_from` gives a final byte with none before it, or the length.
pub proof fn lemma_final_byte_from(s: Seq<u8>, i: int)
    requires
        0 <= i <= s.len(),
    ensures
        i <= final_byte_from(s, i) <= s.len(),
        final_byte_from(s, i) < s.len() ==> is_final_byte(s[final_byte_from(s, i)]),
        forall|k: int| i <= k < final_byte_from(s, i) ==> !is_final_byte(s[k]),
    decreases s.len() - i,
{
    if i < s.len() && !is_final_byte(s[i]) {
        lemma_final_byte_from(s, i + 1);
    }
}

/// `s` without its escape sequences.
pub open spec fn stripped(s: Seq<u8>) -> Seq<u8>
    decreases s.len(),
{
    if s.len() == 0 {
        Seq::empty()
    } else if s[0] == ESC {
        proof {
            if s.len() >= 2 {
                lemma_final_byte_from(s, 2);
            }
        }
        stripped(s.skip(escape_width(s)))
    } else {
        seq![s[0]] + stripped(s.skip(1))
    }
}

/// Length of the escape sequence starting at `s`. A control sequence runs to its
/// first final byte; anything else is treated as a bare escape byte.
pub fn escape_len(s: &str) -> (len: usize)
    ensures
        len == escape_width(s.spec_bytes()),
{
    let bytes = s.as_bytes();
    let n: usize = bytes.len();
    if n < 2 || bytes[1] != 0x5b {
        return 1;
    }
    let mut i: usize = 2;
    while i < n && !(0x40 <= bytes[i] && bytes[i] <= 0x7e)
        invariant
            n == bytes@.len(),
            2 <= i <= n,
            final_byte_from(bytes@, 2) == final_byte_from(bytes@, i as int),
        decreases n - i,
    {
        i = i + 1;
    }
    if i < n {
        i + 1
    } else {
        n
    }
}

/// What precedes the first escape byte is kept as it is.
proof fn lemma_stripped_plain_prefix(s: Seq<u8>, k: int)
    requires
        0 <= k <= s.len(),
        forall|i: int| 0 <= i < k ==> s[i] != ESC,
    ensures
        stripped(s) == s.take(k) + stripped(s.skip(k)),
    decreases k,
{
    if k == 0 {
        assert(s.skip(0) =~= s);
        assert(s.take(0) + stripped(s) =~= stripped(s));
    } else {
        let rest = s.skip(1);
        assert(rest.skip(k - 1) =~= s.skip(k));
        lemma_stripped_plain_prefix(rest, k - 1);
        assert(seq![s[0]] + (rest.take(k - 1) + stripped(s.skip(k))) =~= s.take(k) + stripped(
            s.skip(k),
        ));
    }
}

proof fn lemma_occurs_byte(s: Seq<u8>, b: u8, i: int)
    ensures
        occurs_at(s, seq![b], i) <==> (0 <= i < s.len() && s[i] == b),
{
    if 0 <= i < s.len() {
        assert(s.subrange(i, i + 1)[0] == s[i]);
        if s[i] == b {
            assert(s.subrange(i, i + 1) =~= seq![b]);
        }
    }
}

/// The first escape byte at or after `start`.
fn find_escape(bytes: &[u8], start: usize) -> (at: Option<usize>)
    requires
        start <= bytes@.len(),
    ensures
        match at {
            Some(i) => {
                &&& start <= i < bytes@.len()
                &&& bytes@[i as int] == ESC
                &&& forall|k: int| start <= k < i ==> bytes@[k] != ESC
            },
            None => forall|k: int| start <= k < bytes@.len() ==> bytes@[k] != ESC,
        },
{
    let pat: [u8; 1] = [ESC];
    proof {
        assert(pat@ =~= seq![ESC]);
        lemma_find_from(bytes@, pat@, start as int);
        assert forall|k: int| true implies #[trigger] occurs_at(bytes@, pat@, k) == (0 <= k
            < bytes@.len() && bytes@[k] == ESC) by {
            lemma_occurs_byte(bytes@, ESC, k);
        }
        assert forall|k: int| start <= k < bytes@.len() && #[trigger] bytes@[k] == ESC implies occurs_at(
            bytes@,
            pat@,
            k,
        ) by {}
    }
    find(bytes, pat.as_slice(), start)
}

/// `line` without its escape sequences. A line that holds none is lent out as it
/// is.
pub fn strip_ansi(line: &str) -> (plain: Cow<'_, str>)
    ensures
        encode_utf8(plain@) == stripped(line.spec_bytes()),
        plain is Borrowed <==> !line.spec_bytes().contains(ESC),
{
    let bytes = line.as_bytes();
    let n: usize = bytes.len();
    let ghost text = line.spec_bytes();
    let mut esc: usize = match find_escape(bytes, 0) {
        Some(i) => i,
        None => {
            proof {
                lemma_stripped_plain_prefix(text, n as int);
                assert(text.take(n as int) + stripped(text.skip(n as int)) =~= text);
            }
            return Cow::Borrowed(line);
        },
    };
    assert(text[esc as int] == ESC);
    let mut out = String::new();
    let mut pos: usize = 0;
    proof {
        lemma_str_view(line);
        assert(text.skip(0) =~= text);
        assert(encode_utf8(out@) + stripped(text) =~= stripped(text));
    }
    loop
        invariant_except_break
            pos <= esc < n,
            text[esc as int] == ESC,
            forall|k: int| pos <= k < esc ==> text[k] != ESC,
        invariant
            n == text.len(),
            bytes@ == text,
            text == line.spec_bytes(),
            valid_utf8(text),
            pos <= n,
            is_char_boundary(text, pos as int),
            encode_utf8(out@) + stripped(text.skip(pos as int)) == stripped(text),
        ensures
            forall|k: int| pos <= k < n ==> text[k] != ESC,
        decreases n - pos,
    {
        let ghost rest = text.skip(pos as int);
        let ghost before = out@;
        proof {
            lemma_ascii_boundaries(text, esc as int);
            is_char_boundary_start_end_of_seq(text);
            lemma_stripped_plain_prefix(rest, esc - pos);
            assert(rest.skip(esc - pos) =~= text.skip(esc as int));
            assert(rest.take(esc - pos) =~= text.subrange(pos as int, esc as int));
        }
        let plain = slice(line, pos, esc);
        out.append(plain);
        let tail = slice(line, esc, n);
        let width: usize = escape_len(tail);
        proof {
            let t = text.skip(esc as int);
            assert(tail.spec_bytes() =~= t);
            assert(t[0] == ESC);
            if t.len() >= 2 {
                lemma_final_byte_from(t, 2);
            }
            if esc + width < n {
                lemma_ascii_boundaries(text, esc + width - 1);
            }
            assert(t.skip(width as int) =~= text.skip(esc + width));
            lemma_encode_concat(before, plain@);
            assert(encode_utf8(out@) + stripped(text.skip(esc + width)) =~= encode_utf8(before) + (
            plain.spec_bytes() + stripped(text.skip(esc + width))));
        }
        pos = esc + width;
        match find_escape(bytes, pos) {
            Some(i) => {
                esc = i;
            },
            None => {
                break ;
            },
        }
    }
    proof {
        let rest = text.skip(pos as int);
        lemma_stripped_plain_prefix(rest, n - pos);
        assert(rest.take(n - pos) + stripped(rest.skip(n - pos)) =~= rest);
        is_char_boundary_start_end_of_seq(text);
    }
    let plain = slice(line, pos, n);
    let ghost before = out@;
    out.append(plain);
    proof {
        lemma_encode_concat(before, plain@);
        assert(plain.spec_bytes() =~= text.skip(pos as int));
    }
    Cow::Owned(out)
}

/// The first offset at or after `i` of an `m` or an escape byte, the length of
/// `s` if there is none.
pub open spec fn sgr_end(s: Seq<u8>, i: int) -> int
    decreases s.len() - i,
{
    if i >= s.len() {
        s.len() as int
    } else if s[i] == 0x6d || s[i] == ESC {
        i
    } else {
        sgr_end(s, i + 1)
    }
}

/// The sequence that sets text attributes (`ESC [ .. m`) at offset `i` of
/// `line`, if one starts there. Another escape byte before the `m` breaks it off.
pub open spec fn sgr_at(line: Seq<u8>, i: int) -> Option<Seq<u8>> {
    let end = sgr_end(line, i + 2);
    if 0 <= i && i + 1 < line.len() && line[i] == ESC && line[i + 1] == 0x5b && end < line.len()
        && line[end] == 0x6d {
        Some(line.subrange(i, end + 1))
    } else {
        None
    }
}

/// The attribute sequences of `line` that start at or after offset `i`, in order.
pub open spec fn sgr_from(line: Seq<u8>, i: int) -> Seq<Seq<u8>>
    decreases line.len() - i,
{
    if i >= line.len() {
        Seq::empty()
    } else {
        match sgr_at(line, i) {
            Some(code) => seq![code] + sgr_from(line, i + 1),
            None => sgr_from(line, i + 1),
        }
    }
}

/// The attribute sequences of `lines`, in order.
pub open spec fn sgr_of(lines: Seq<Seq<u8>>) -> Seq<Seq<u8>>
    decreases lines.len(),
{
    if lines.len() == 0 {
        Seq::empty()
    } else {
        sgr_of(lines.drop_last()) + sgr_from(lines.last(), 0)
    }
}

/// A sequence that resets all attributes: `ESC [ 0 m` or `ESC [ m`.
pub open spec fn is_reset(code: Seq<u8>) -> bool {
    code == seq![ESC, 0x5b, 0x30, 0x6d] || code == seq![ESC, 0x5b, 0x6d]
}

/// What `codes` leave in effect: those after the last reset, one after the other.
pub open spec fn in_effect(codes: Seq<Seq<u8>>) -> Seq<u8>
    decreases codes.len(),
{
    if codes.len() == 0 || is_reset(codes.last()) {
        Seq::empty()
    } else {
        in_effect(codes.drop_last()) + codes.last()
    }
}

proof fn lemma_sgr_end(s: Seq<u8>, i: int)
    requires
        0 <= i <= s.len(),
    ensures
        i <= sgr_end(s, i) <= s.len(),
        sgr_end(s, i) < s.len() ==> s[sgr_end(s, i)] == 0x6d || s[sgr_end(s, i)] == ESC,
        forall|k: int| i <= k < sgr_end(s, i) ==> s[k] != 0x6d && s[k] != ESC,
    decreases s.len() - i,
{
    if i < s.len() && s[i] != 0x6d && s[i] != ESC {
        lemma_sgr_end(s, i + 1);
    }
}

/// No sequence starts where there is no escape byte.
proof fn lemma_sgr_from_plain(line: Seq<u8>, a: int, b: int)
    requires
        0 <= a <= b <= line.len(),
        forall|k: int| a <= k < b ==> line[k] != ESC,
    ensures
        sgr_from(line, a) == sgr_from(line, b),
    decreases b - a,
{
    if a < b {
        lemma_sgr_from_plain(line, a + 1, b);
    }
}

/// Adds the attribute sequences of one line to those that are in effect.
fn collect_line(state: &mut String, line: &str, Ghost(before): Ghost<Seq<Seq<u8>>>)
    requires
        encode_utf8(old(state)@) == in_effect(before),
    ensures
        encode_utf8(final(state)@) == in_effect(before + sgr_from(line.spec_bytes(), 0)),
{
    let bytes = line.as_bytes();
    let n: usize = bytes.len();
    let ghost text = line.spec_bytes();
    let ghost mut codes: Seq<Seq<u8>> = Seq::empty();
    let mut i: usize = 0;
    proof {
        lemma_str_view(line);
        assert(before + codes =~= before);
        assert(codes + sgr_from(text, 0) =~= sgr_from(text, 0));
    }
    while i < n
        invariant
            n == text.len(),
            bytes@ == text,
            text == line.spec_bytes(),
            valid_utf8(text),
            i <= n,
            encode_utf8(state@) == in_effect(before + codes),
            codes + sgr_from(text, i as int) == sgr_from(text, 0),
        decreases n - i,
    {
        if bytes[i] == ESC && i + 1 < n && bytes[i + 1] == 0x5b {
            let start: usize = i;
            i = i + 2;
            while i < n && bytes[i] != 0x6d && bytes[i] != ESC
                invariant
                    n == text.len(),
                    bytes@ == text,
                    start + 2 <= i <= n,
                    sgr_end(text, start + 2) == sgr_end(text, i as int),
                decreases n - i,
            {
                i = i + 1;
            }
            proof {
                lemma_sgr_end(text, start + 2);
            }
            if i < n && bytes[i] == 0x6d {
                proof {
                    lemma_ascii_boundaries(text, start as int);
                    lemma_ascii_boundaries(text, i as int);
                    lemma_sgr_from_plain(text, start + 1, i + 1);
                }
                let code = slice(line, start, i + 1);
                let ghost c = text.subrange(start as int, i + 1);
                let ghost codes_before = codes;
                proof {
                    codes = codes.push(c);
                    assert((before + codes).drop_last() =~= before + codes_before);
                    assert(codes + sgr_from(text, i + 1) =~= codes_before + (seq![c] + sgr_from(
                        text,
                        i + 1,
                    )));
                    assert(c[0] == ESC && c[1] == 0x5b && c[c.len() - 1] == 0x6d);
                    if c.len() == 4 && c[2] == 0x30 {
                        assert(c =~= seq![ESC, 0x5b, 0x30, 0x6d]);
                    }
                    if c.len() == 3 {
                        assert(c =~= seq![ESC, 0x5b, 0x6d]);
                    }
                    assert(is_reset(c) == (c.len() == 3 || (c.len() == 4 && c[2] == 0x30)));
                }
                if i - start == 2 || (i - start == 3 && bytes[start + 2] == 0x30) {
                    *state = String::new();
                } else {
                    proof {
                        lemma_encode_concat(state@, code@);
                    }
                    state.append(code);
                }
                i = i + 1;
            } else {
                proof {
                    lemma_sgr_from_plain(text, start + 1, i as int);
                }
            }
        } else {
            i = i + 1;
        }
    }
    proof {
        assert(codes =~= sgr_from(text, 0));
    }
}

/// The attribute sequences that `lines` leave in effect at their end.
pub fn collect_ansi_state(lines: &[&str]) -> (state: String)
    ensures
        encode_utf8(state@) == in_effect(sgr_of(bytes_of(lines@))),
{
    let mut state = String::new();
    let n: usize = lines.len();
    let mut k: usize = 0;
    let ghost all = bytes_of(lines@);
    assert(all.take(0) =~= Seq::empty());
    while k < n
        invariant
            n == lines@.len(),
            k <= n,
            all == bytes_of(lines@),
            encode_utf8(state@) == in_effect(sgr_of(all.take(k as int))),
        decreases n - k,
    {
        let line = lines[k];
        let ghost before = sgr_of(all.take(k as int));
        collect_line(&mut state, line, Ghost(before));
        proof {
            assert(all.take(k + 1).drop_last() =~= all.take(k as int));
            assert(all.take(k + 1).last() == line.spec_bytes());
        }
        k = k + 1;
    }
    assert(all.take(n as int) =~= all);
    state
}

/// A complete control sequence: `ESC [`, bytes that are not final, a final byte.
pub open spec fn is_control_sequence(e: Seq<u8>) -> bool {
    &&& e.len() >= 3
    &&& e[0] == ESC
    &&& e[1] == 0x5b
    &&& is_final_byte(e.last())
    &&& forall|k: int| 2 <= k < e.len() - 1 ==> !is_final_byte(#[trigger] e[k])
}

/// Stripped text holds no escape byte.
pub proof fn law_stripped_is_plain(s: Seq<u8>)
    ensures
        !stripped(s).contains(ESC),
    decreases s.len(),
{
    if s.len() == 0 {
    } else if s[0] == ESC {
        if s.len() >= 2 {
            lemma_final_byte_from(s, 2);
        }
        law_stripped_is_plain(s.skip(escape_width(s)));
    } else {
        let rest = stripped(s.skip(1));
        law_stripped_is_plain(s.skip(1));
        assert forall|k: int| 0 <= k < stripped(s).len() implies stripped(s)[k] != ESC by {
            if k > 0 {
                assert(stripped(s)[k] == rest[k - 1]);
                assert(rest.contains(rest[k - 1]));
            }
        }
    }
}

/// Text without an escape byte stays as it is.
pub proof fn law_plain_is_kept(s: Seq<u8>)
    requires
        !s.contains(ESC),
    ensures
        stripped(s) == s,
{
    assert forall|i: int| 0 <= i < s.len() implies s[i] != ESC by {
        assert(s.contains(s[i]));
    }
    lemma_stripped_plain_prefix(s, s.len() as int);
    assert(s.take(s.len() as int) + stripped(s.skip(s.len() as int)) =~= s);
}

/// Stripping a second time changes nothing.
pub proof fn law_strip_twice(s: Seq<u8>)
    ensures
        stripped(stripped(s)) == stripped(s),
{
    law_stripped_is_plain(s);
    law_plain_is_kept(stripped(s));
}

/// Plain text and control sequences in turn: what is left is the plain text, as
/// it reads on screen.
pub proof fn law_control_sequences_are_invisible(plain: Seq<Seq<u8>>, codes: Seq<Seq<u8>>)
    requires
        plain.len() == codes.len(),
        forall|i: int| 0 <= i < plain.len() ==> !(#[trigger] plain[i]).contains(ESC),
        forall|i: int| 0 <= i < codes.len() ==> is_control_sequence(#[trigger] codes[i]),
    ensures
        stripped(Seq::new(plain.len(), |i: int| plain[i] + codes[i]).flatten()) == plain.flatten(),
    decreases plain.len(),
{
    let parts = Seq::new(plain.len(), |i: int| plain[i] + codes[i]);
    if plain.len() > 0 {
        let p = plain[0];
        let c = codes[0];
        let plain_rest = plain.drop_first();
        let codes_rest = codes.drop_first();
        let rest = Seq::new(plain_rest.len(), |i: int| plain_rest[i] + codes_rest[i]);
        assert(parts.drop_first() =~= rest);
        law_control_sequences_are_invisible(plain_rest, codes_rest);
        let tail = rest.flatten();
        let all = parts.flatten();
        assert(all == p + c + tail);
        assert forall|i: int| 0 <= i < p.len() implies all[i] != ESC by {
            assert(p.contains(p[i]));
        }
        lemma_stripped_plain_prefix(all, p.len() as int);
        assert(all.take(p.len() as int) =~= p);
        assert(all.skip(p.len() as int) =~= c + tail);
        lemma_control_sequence_width(c, tail);
        assert((c + tail).skip(c.len() as int) =~= tail);
    }
}

proof fn lemma_control_sequence_width(c: Seq<u8>, tail: Seq<u8>)
    requires
        is_control_sequence(c),
    ensures
        escape_width(c + tail) == c.len(),
{
    let s = c + tail;
    lemma_final_byte_from(s, 2);
    assert(is_final_byte(s[c.len() - 1]));
    let f = final_byte_from(s, 2);
    if f < c.len() - 1 {
        assert(c[f] == s[f]);
    }
}

/// An attribute sequence: `ESC [`, bytes other than `m` and the escape byte, `m`.
spec fn is_sgr(c: Seq<u8>) -> bool {
    &&& c.len() >= 3
    &&& c[0] == ESC
    &&& c[1] == 0x5b
    &&& c.last() == 0x6d
    &&& forall|k: int| 2 <= k < c.len() - 1 ==> c[k] != 0x6d && c[k] != ESC
}

proof fn lemma_sgr_from_members(line: Seq<u8>, i: int)
    requires
        0 <= i,
    ensures
        forall|k: int| 0 <= k < sgr_from(line, i).len() ==> is_sgr(#[trigger] sgr_from(line, i)[k]),
    decreases line.len() - i,
{
    if i < line.len() {
        lemma_sgr_from_members(line, i + 1);
        if i + 2 <= line.len() {
            lemma_sgr_end(line, i + 2);
        }
        if let Some(code) = sgr_at(line, i) {
            assert(is_sgr(code));
            let rest = sgr_from(line, i + 1);
            assert forall|k: int| 0 <= k < sgr_from(line, i).len() implies is_sgr(
                #[trigger] sgr_from(line, i)[k],
            ) by {
                if k > 0 {
                    assert(sgr_from(line, i)[k] == rest[k - 1]);
                }
            }
        } else {
            assert(sgr_from(line, i) == sgr_from(line, i + 1));
        }
    }
}

proof fn lemma_sgr_of_members(lines: Seq<Seq<u8>>)
    ensures
        forall|k: int| 0 <= k < sgr_of(lines).len() ==> is_sgr(#[trigger] sgr_of(lines)[k]),
    decreases lines.len(),
{
    if lines.len() > 0 {
        lemma_sgr_of_members(lines.drop_last());
        lemma_sgr_from_members(lines.last(), 0);
        let head = sgr_of(lines.drop_last());
        let tail = sgr_from(lines.last(), 0);
        assert forall|k: int| 0 <= k < sgr_of(lines).len() implies is_sgr(
            #[trigger] sgr_of(lines)[k],
        ) by {
            if k < head.len() {
                assert(sgr_of(lines)[k] == head[k]);
            } else {
                assert(sgr_of(lines)[k] == tail[k - head.len()]);
            }
        }
    }
}

proof fn lemma_sgr_end_unique(s: Seq<u8>, i: int, end: int)
    requires
        0 <= i <= end < s.len(),
        s[end] == 0x6d || s[end] == ESC,
        forall|k: int| i <= k < end ==> s[k] != 0x6d && s[k] != ESC,
    ensures
        sgr_end(s, i) == end,
    decreases end - i,
{
    if i < end {
        lemma_sgr_end_unique(s, i + 1, end);
    }
}

/// A line made of `x`, which ends with an `m`, and an attribute sequence holds
/// the sequences of `x` and then that one.
proof fn lemma_sgr_append(x: Seq<u8>, c: Seq<u8>, i: int)
    requires
        0 <= i <= x.len(),
        x.len() == 0 || x.last() == 0x6d,
        is_sgr(c),
    ensures
        sgr_from(x + c, i) == sgr_from(x, i).push(c),
    decreases x.len() - i,
{
    let s = x + c;
    if i == x.len() {
        lemma_sgr_end_unique(s, i + 2, s.len() - 1);
        assert(s.subrange(i, s.len() as int) =~= c);
        assert(sgr_at(s, i) == Some(c));
        lemma_sgr_from_plain(s, i + 1, s.len() as int);
        assert(sgr_from(s, i) =~= seq![c]);
        assert(sgr_from(x, i).push(c) =~= seq![c]);
    } else {
        lemma_sgr_append(x, c, i + 1);
        if i + 1 < x.len() && x[i] == ESC && x[i + 1] == 0x5b {
            lemma_sgr_end(x, i + 2);
            let end = sgr_end(x, i + 2);
            assert(i + 2 < x.len());
            assert(end < x.len());
            lemma_sgr_end_unique(s, i + 2, end);
            assert(s.subrange(i, end + 1) =~= x.subrange(i, end + 1));
        } else if i + 1 == x.len() {
            assert(x[i] == 0x6d);
        }
        assert(sgr_at(s, i) == sgr_at(x, i));
        assert(sgr_from(s, i) =~= sgr_from(x, i).push(c));
    }
}

/// Read back as a line, what is in effect has the same effect, after any
/// sequences and before any others.
proof fn lemma_in_effect_replay(codes: Seq<Seq<u8>>, more: Seq<Seq<u8>>)
    requires
        forall|k: int| 0 <= k < codes.len() ==> is_sgr(#[trigger] codes[k]),
    ensures
        in_effect(sgr_from(in_effect(codes), 0) + more) == in_effect(codes + more),
        in_effect(codes).len() == 0 || in_effect(codes).last() == 0x6d,
    decreases codes.len() + more.len(),
{
    let line = in_effect(codes);
    if more.len() > 0 {
        lemma_in_effect_replay(codes, more.drop_last());
        assert((sgr_from(line, 0) + more).drop_last() =~= sgr_from(line, 0) + more.drop_last());
        assert((codes + more).drop_last() =~= codes + more.drop_last());
        assert((sgr_from(line, 0) + more).last() == more.last());
        assert((codes + more).last() == more.last());
    } else {
        assert(codes + more =~= codes);
        assert(sgr_from(line, 0) + more =~= sgr_from(line, 0));
        if codes.len() == 0 || is_reset(codes.last()) {
        } else {
            let before = codes.drop_last();
            let c = codes.last();
            assert(is_sgr(codes[codes.len() - 1]));
            assert forall|k: int| 0 <= k < before.len() implies is_sgr(#[trigger] before[k]) by {
                assert(before[k] == codes[k]);
            }
            lemma_in_effect_replay(before, more);
            assert(before + more =~= before);
            let x = in_effect(before);
            assert(sgr_from(x, 0) + more =~= sgr_from(x, 0));
            lemma_sgr_append(x, c, 0);
            assert(sgr_from(line, 0).drop_last() =~= sgr_from(x, 0));
            assert(line.last() == c.last());
        }
    }
}

proof fn lemma_sgr_of_concat(a: Seq<Seq<u8>>, b: Seq<Seq<u8>>)
    ensures
        sgr_of(a + b) == sgr_of(a) + sgr_of(b),
    decreases b.len(),
{
    if b.len() == 0 {
        assert(a + b =~= a);
        assert(sgr_of(a) + sgr_of(b) =~= sgr_of(a));
    } else {
        lemma_sgr_of_concat(a, b.drop_last());
        assert((a + b).drop_last() =~= a + b.drop_last());
        assert(sgr_of(a + b) =~= sgr_of(a) + sgr_of(b));
    }
}

/// Colors survive scrolling: showing the state collected from the first `k`
/// lines ahead of the remaining lines leaves the same attributes in effect as
/// showing all lines.
pub proof fn law_state_carries_over(lines: Seq<Seq<u8>>, k: int)
    requires
        0 <= k <= lines.len(),
    ensures
        ({
            let state = in_effect(sgr_of(lines.take(k)));
            in_effect(sgr_of(seq![state] + lines.skip(k))) == in_effect(sgr_of(lines))
        }),
{
    let head = lines.take(k);
    let tail = lines.skip(k);
    let state = in_effect(sgr_of(head));
    assert(head + tail =~= lines);
    lemma_sgr_of_concat(head, tail);
    lemma_sgr_of_concat(seq![state], tail);
    assert(seq![state].drop_last() =~= Seq::<Seq<u8>>::empty());
    assert(sgr_of(seq![state].drop_last()) =~= Seq::<Seq<u8>>::empty());
    assert(sgr_of(seq![state]) =~= sgr_from(state, 0));
    lemma_sgr_of_members(head);
    lemma_in_effect_replay(sgr_of(head), sgr_of(tail));
}

/// A reset makes everything before it irrelevant.
pub proof fn law_reset_clears(before: Seq<Seq<u8>>, after: Seq<Seq<u8>>, reset: Seq<u8>)
    requires
        is_reset(reset),
    ensures
        in_effect(before + seq![reset] + after) == in_effect(after),
    decreases after.len(),
{
    let all = before + seq![reset] + after;
    if after.len() > 0 {
        law_reset_clears(before, after.drop_last(), reset);
        assert(all.drop_last() =~= before + seq![reset] + after.drop_last());
        assert(all.last() == after.last());
    } else {
        assert(all.last() == reset);
    }
}

/// How long an escape sequence is, by the bytes it is made of. A control sequence
/// ends with its first byte from `@` to `~`, or with the text without one; any
/// other escape byte stands alone.
pub proof fn law_escape_width(params: Seq<u8>, last: u8, rest: Seq<u8>)
    requires
        forall|i: int| 0 <= i < params.len() ==> !(0x40 <= #[trigger] params[i] <= 0x7e),
        0x40 <= last <= 0x7e,
    ensures
        escape_width(seq![0x1bu8, 0x5bu8] + params + seq![last] + rest) == params.len() + 3,
        escape_width(seq![0x1bu8, 0x5bu8] + params) == params.len() + 2,
        rest.len() == 0 || rest[0] != 0x5b ==> escape_width(seq![0x1bu8] + rest) == 1,
{
    let c = seq![0x1bu8, 0x5bu8] + params + seq![last];
    assert forall|k: int| 2 <= k < c.len() - 1 implies !is_final_byte(#[trigger] c[k]) by {
        assert(c[k] == params[k - 2]);
    }
    lemma_control_sequence_width(c, rest);
    let open = seq![0x1bu8, 0x5bu8] + params;
    lemma_final_byte_from(open, 2);
    let f = final_byte_from(open, 2);
    if f < open.len() {
        assert(open[f] == params[f - 2]);
    }
}

/// What stripping takes out, by the bytes: after plain text a complete control
/// sequence, a control sequence that the text breaks off, or an escape byte that
/// starts none. All else is kept.
pub proof fn law_what_is_stripped(plain: Seq<u8>, params: Seq<u8>, last: u8, rest: Seq<u8>)
    requires
        forall|i: int| 0 <= i < plain.len() ==> #[trigger] plain[i] != 0x1b,
        forall|i: int| 0 <= i < params.len() ==> !(0x40 <= #[trigger] params[i] <= 0x7e),
        0x40 <= last <= 0x7e,
    ensures
        stripped(plain) == plain,
        stripped(plain + (seq![0x1bu8, 0x5bu8] + params + seq![last] + rest)) == plain + stripped(
            rest,
        ),
        stripped(plain + (seq![0x1bu8, 0x5bu8] + params)) == plain,
        rest.len() == 0 || rest[0] != 0x5b ==> stripped(plain + (seq![0x1bu8] + rest)) == plain
            + stripped(rest),
{
    let n = plain.len() as int;
    lemma_stripped_plain_prefix(plain, n);
    assert(plain.take(n) + stripped(plain.skip(n)) =~= plain);
    law_escape_width(params, last, rest);
    let whole = seq![0x1bu8, 0x5bu8] + params + seq![last] + rest;
    lemma_stripped_escape(plain, whole);
    assert(whole.skip(params.len() as int + 3) =~= rest);
    let open = seq![0x1bu8, 0x5bu8] + params;
    lemma_stripped_escape(plain, open);
    assert(open.skip(params.len() as int + 2) =~= Seq::<u8>::empty());
    assert(plain + stripped(Seq::<u8>::empty()) =~= plain);
    if rest.len() == 0 || rest[0] != 0x5b {
        let bare = seq![0x1bu8] + rest;
        lemma_stripped_escape(plain, bare);
        assert(bare.skip(1) =~= rest);
    }
}

proof fn lemma_stripped_escape(plain: Seq<u8>, escape: Seq<u8>)
    requires
        forall|i: int| 0 <= i < plain.len() ==> #[trigger] plain[i] != ESC,
        escape.len() > 0,
        escape[0] == ESC,
    ensures
        stripped(plain + escape) == plain + stripped(escape.skip(escape_width(escape))),
{
    let n = plain.len() as int;
    let all = plain + escape;
    assert forall|i: int| 0 <= i < n implies all[i] != ESC by {
        assert(all[i] == plain[i]);
    }
    lemma_stripped_plain_prefix(all, n);
    assert(all.take(n) =~= plain);
    assert(all.skip(n) =~= escape);
}

proof fn lemma_sgr_end_shift(x: Seq<u8>, rest: Seq<u8>, i: int)
    requires
        0 <= i,
    ensures
        sgr_end(x + rest, x.len() + i) == x.len() + sgr_end(rest, i),
    decreases rest.len() - i,
{
    if i < rest.len() {
        assert((x + rest)[x.len() + i] == rest[i]);
        lemma_sgr_end_shift(x, rest, i + 1);
    }
}

/// What stands before has no part in the sequences of what follows.
proof fn lemma_sgr_shift(x: Seq<u8>, rest: Seq<u8>, i: int)
    requires
        0 <= i,
    ensures
        sgr_from(x + rest, x.len() + i) == sgr_from(rest, i),
    decreases rest.len() - i,
{
    if i < rest.len() {
        let all = x + rest;
        let n = x.len() as int;
        lemma_sgr_shift(x, rest, i + 1);
        lemma_sgr_end_shift(x, rest, i + 2);
        assert(all[n + i] == rest[i]);
        if i + 1 < rest.len() {
            assert(all[n + i + 1] == rest[i + 1]);
            lemma_sgr_end(rest, i + 2);
        }
        let end = sgr_end(rest, i + 2);
        if i + 1 < rest.len() && end < rest.len() {
            assert(all[n + end] == rest[end]);
            assert(all.subrange(n + i, n + end + 1) =~= rest.subrange(i, end + 1));
        }
        assert(sgr_at(all, n + i) == sgr_at(rest, i));
    }
}

/// No sequence starts in `x` but at its start, and what follows is read on its own.
proof fn lemma_sgr_skip(x: Seq<u8>, rest: Seq<u8>, from: int)
    requires
        0 <= from <= x.len(),
        forall|k: int| from <= k < x.len() ==> #[trigger] x[k] != ESC,
    ensures
        sgr_from(x + rest, from) == sgr_from(rest, 0),
{
    let all = x + rest;
    assert forall|k: int| from <= k < x.len() implies all[k] != ESC by {
        assert(all[k] == x[k]);
    }
    lemma_sgr_from_plain(all, from, x.len() as int);
    lemma_sgr_shift(x, rest, 0);
}

/// Which attribute sequences a line holds, by the bytes: `ESC [`, bytes that are
/// neither `m` nor an escape byte, and `m` are one. Where the line or another
/// escape byte breaks it off, and where no `[` follows the escape byte, there is
/// none.
pub proof fn law_attribute_sequences(plain: Seq<u8>, params: Seq<u8>, rest: Seq<u8>)
    requires
        forall|i: int| 0 <= i < plain.len() ==> #[trigger] plain[i] != 0x1b,
        forall|i: int|
            0 <= i < params.len() ==> #[trigger] params[i] != 0x6d && params[i] != 0x1b,
    ensures
        sgr_from(plain, 0) == Seq::<Seq<u8>>::empty(),
        sgr_from(plain + seq![0x1bu8, 0x5bu8] + params + seq![0x6du8] + rest, 0) == seq![
            seq![0x1bu8, 0x5bu8] + params + seq![0x6du8],
        ] + sgr_from(rest, 0),
        sgr_from(plain + seq![0x1bu8, 0x5bu8] + params, 0) == Seq::<Seq<u8>>::empty(),
        rest.len() > 0 && rest[0] == 0x1b ==> sgr_from(
            plain + seq![0x1bu8, 0x5bu8] + params + rest,
            0,
        ) == sgr_from(rest, 0),
        rest.len() == 0 || rest[0] != 0x5b ==> sgr_from(plain + seq![0x1bu8] + rest, 0)
            == sgr_from(rest, 0),
{
    let n = plain.len() as int;
    let none = Seq::<u8>::empty();
    lemma_sgr_skip(plain, none, 0);
    assert(plain + none =~= plain);
    // a complete sequence
    let code = seq![0x1bu8, 0x5bu8] + params + seq![0x6du8];
    let head = plain + code;
    let all = plain + seq![0x1bu8, 0x5bu8] + params + seq![0x6du8] + rest;
    assert(all =~= head + rest);
    lemma_sgr_skip(plain, code + rest, 0);
    assert(plain + (code + rest) =~= all);
    let tail = code + rest;
    let last = code.len() - 1;
    assert forall|k: int| 2 <= k < last implies tail[k] != 0x6d && tail[k] != ESC by {
        assert(tail[k] == params[k - 2]);
    }
    lemma_sgr_end_unique(tail, 2, last);
    assert(tail.subrange(0, last + 1) =~= code);
    assert(sgr_at(tail, 0) == Some(code));
    assert forall|k: int| 1 <= k < code.len() implies #[trigger] code[k] != ESC by {
        if 2 <= k < last {
            assert(code[k] == params[k - 2]);
        }
    }
    lemma_sgr_skip(code, rest, 1);
    // one that is broken off
    let open = seq![0x1bu8, 0x5bu8] + params;
    assert forall|k: int| 1 <= k < open.len() implies #[trigger] open[k] != ESC by {
        if 2 <= k {
            assert(open[k] == params[k - 2]);
        }
    }
    lemma_sgr_skip(plain, open, 0);
    assert(plain + open =~= plain + seq![0x1bu8, 0x5bu8] + params);
    lemma_sgr_end(open, 2);
    if sgr_end(open, 2) < open.len() {
        assert(open[sgr_end(open, 2)] == params[sgr_end(open, 2) - 2]);
    }
    lemma_sgr_skip(open, none, 1);
    assert(open + none =~= open);
    if rest.len() > 0 && rest[0] == 0x1b {
        let cut = open + rest;
        lemma_sgr_skip(plain, cut, 0);
        assert(plain + cut =~= plain + seq![0x1bu8, 0x5bu8] + params + rest);
        assert forall|k: int| 2 <= k < open.len() implies cut[k] != 0x6d && cut[k] != ESC by {
            assert(cut[k] == params[k - 2]);
        }
        lemma_sgr_end_unique(cut, 2, open.len() as int);
        lemma_sgr_skip(open, rest, 1);
    }
    // an escape byte that starts none
    if rest.len() == 0 || rest[0] != 0x5b {
        let bare = seq![0x1bu8] + rest;
        lemma_sgr_skip(plain, bare, 0);
        assert(plain + bare =~= plain + seq![0x1bu8] + rest);
        assert(sgr_at(bare, 0) is None);
        lemma_sgr_shift(seq![0x1bu8], rest, 0);
    }
}

/// The attribute sequences of lines are those of each line, one after the other.
pub proof fn law_attribute_sequences_of_lines(lines: Seq<Seq<u8>>)
    ensures
        sgr_of(lines) == Seq::new(lines.len(), |i: int| sgr_from(lines[i], 0)).flatten(),
    decreases lines.len(),
{
    let parts = Seq::new(lines.len(), |i: int| sgr_from(lines[i], 0));
    if lines.len() > 0 {
        let init = lines.drop_last();
        law_attribute_sequences_of_lines(init);
        let before = Seq::new(init.len(), |i: int| sgr_from(init[i], 0));
        assert(parts =~= before.push(sgr_from(lines.last(), 0)));
        before.lemma_flatten_push(sgr_from(lines.last(), 0));
    }
}

/// Attributes stay in effect unless `ESC [ 0 m` or `ESC [ m` resets them: without
/// such a reset all sequences are in effect, one after the other.
pub proof fn law_all_stay_in_effect(codes: Seq<Seq<u8>>)
    requires
        forall|i: int|
            0 <= i < codes.len() ==> #[trigger] codes[i] != seq![0x1bu8, 0x5bu8, 0x30u8, 0x6du8]
                && codes[i] != seq![0x1bu8, 0x5bu8, 0x6du8],
    ensures
        in_effect(codes) == codes.flatten(),
    decreases codes.len(),
{
    if codes.len() > 0 {
        let init = codes.drop_last();
        assert forall|i: int| 0 <= i < init.len() implies #[trigger] init[i] != seq![
            0x1bu8,
            0x5bu8,
            0x30u8,
            0x6du8,
        ] && init[i] != seq![0x1bu8, 0x5bu8, 0x6du8] by {
            assert(init[i] == codes[i]);
        }
        law_all_stay_in_effect(init);
        assert(codes[codes.len() - 1] == codes.last());
        assert(codes =~= init.push(codes.last()));
        init.lemma_flatten_push(codes.last());
    }
}

/// After the last `ESC [ 0 m` or `ESC [ m`, what follows is in effect and nothing
/// else.
pub proof fn law_in_effect_after_a_reset(
    before: Seq<Seq<u8>>,
    reset: Seq<u8>,
    after: Seq<Seq<u8>>,
)
    requires
        reset == seq![0x1bu8, 0x5bu8, 0x30u8, 0x6du8] || reset == seq![0x1bu8, 0x5bu8, 0x6du8],
        forall|i: int|
            0 <= i < after.len() ==> #[trigger] after[i] != seq![0x1bu8, 0x5bu8, 0x30u8, 0x6du8]
                && after[i] != seq![0x1bu8, 0x5bu8, 0x6du8],
    ensures
        in_effect(before + seq![reset] + after) == after.flatten(),
{
    law_reset_clears(before, after, reset);
    law_all_stay_in_effect(after);
}

} // verus!
