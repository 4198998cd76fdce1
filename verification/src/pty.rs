//! Reading a command's output from a pseudo-terminal.

use vstd::prelude::*;
use vstd::slice::slice_subrange;
use vstd::string::*;
use vstd::utf8::*;

use crate::text::{find, slice};
#[allow(unused_imports)]
use crate::text::{
    lemma_ascii_boundaries, lemma_encode_concat, lemma_find_from, lemma_str_view, occurs_at,
};

verus! {

/// The size of a pseudo-terminal.
#[derive(Debug)]
pub struct WindowSize {
    pub rows: u16,
    pub cols: u16,
}

/// The rows and columns of a command's terminal on a terminal of `size` (columns
/// and rows).
pub open spec fn command_window(size: Option<(u16, u16)>) -> (int, int) {
    match size {
        Some((cols, rows)) => (
            if rows > 1 {
                rows - 1
            } else {
                1
            },
            if cols > 0 {
                cols as int
            } else {
                1
            },
        ),
        None => (23, 80),
    }
}

/// The size to give to a command's terminal on a terminal of `size` (columns and
/// rows), 80 columns and 24 rows where that is not known: one row is left for the
/// status bar, and neither number is zero.
pub fn window_size(size: Option<(u16, u16)>) -> (w: WindowSize)
    ensures
        ({
            let (cols, rows) = match size {
                Some(s) => s,
                None => (80u16, 24u16),
            };
            &&& w.rows == if rows > 1 {
                rows - 1
            } else {
                1
            }
            &&& w.cols == if cols > 0 {
                cols as int
            } else {
                1
            }
        }),
        (w.rows as int, w.cols as int) == command_window(size),
{
    let (cols, rows): (u16, u16) = match size {
        Some(s) => s,
        None => (80, 24),
    };
    WindowSize {
        rows: if rows > 1 {
            rows - 1
        } else {
            1
        },
        cols: if cols > 0 {
            cols
        } else {
            1
        },
    }
}

/// How a read from the pseudo-terminal went.
#[derive(Debug)]
pub enum ReadOutcome {
    /// That many bytes were read into the buffer.
    Bytes(usize),
    /// The other side is gone, which the terminal reports as an I/O error.
    HungUp,
    /// Any other error.
    Failed,
}

/// What is to be done after a read.
#[derive(Clone, Copy, Debug, PartialEq, Eq, Structural)]
pub enum ReadNext {
    /// Read again.
    More,
    /// The output is complete.
    Done,
    /// Give up with the error of the read.
    Fail,
}

/// The output after a read into `buf`, and what is to be done.
pub open spec fn after_read(output: Seq<u8>, buf: Seq<u8>, outcome: ReadOutcome) -> (
    Seq<u8>,
    ReadNext,
) {
    match outcome {
        ReadOutcome::Bytes(n) => (
            output + buf.take(n as int),
            if n == 0 {
                ReadNext::Done
            } else {
                ReadNext::More
            },
        ),
        ReadOutcome::HungUp => (output, ReadNext::Done),
        ReadOutcome::Failed => (output, ReadNext::Fail),
    }
}

/// Takes what a read put into `buf`. The output ends when nothing was read or the
/// other side is gone.
pub fn take_read(output: &mut Vec<u8>, buf: &[u8], outcome: ReadOutcome) -> (next: ReadNext)
    requires
        outcome matches ReadOutcome::Bytes(n) ==> n <= buf@.len(),
    ensures
        match outcome {
            ReadOutcome::Bytes(n) => {
                &&& final(output)@ == old(output)@ + buf@.take(n as int)
                &&& next == if n == 0 {
                    ReadNext::Done
                } else {
                    ReadNext::More
                }
            },
            ReadOutcome::HungUp => next == ReadNext::Done && final(output)@ == old(output)@,
            ReadOutcome::Failed => next == ReadNext::Fail && final(output)@ == old(output)@,
        },
        (final(output)@, next) == after_read(old(output)@, buf@, outcome),
{
    match outcome {
        ReadOutcome::Bytes(n) => {
            let ghost before = output@;
            output.extend_from_slice(slice_subrange(buf, 0, n));
            assert(output@ =~= before + buf@.take(n as int));
            if n == 0 {
                ReadNext::Done
            } else {
                ReadNext::More
            }
        },
        ReadOutcome::HungUp => ReadNext::Done,
        ReadOutcome::Failed => ReadNext::Fail,
    }
}

/// Why a command's output is not shown.
#[derive(Debug)]
pub struct CommandError {
    pub message: String,
}

/// What is said of a command that failed.
pub open spec fn failure_text(cmd: Seq<char>, status: Seq<char>) -> Seq<char> {
    "command '"@ + cmd + "' exited with "@ + status
}

/// Refuses the exit status of a command that did not succeed. `status` is the
/// status in words.
pub fn check_cmd_status(success: bool, status: &str, cmd: &str) -> (r: Result<(), CommandError>)
    ensures
        r is Ok <==> success,
        r matches Err(e) ==> e.message@ == failure_text(cmd@, status@),
        r matches Err(e) ==> e.message@ == "command '"@ + cmd@ + "' exited with "@ + status@,
{
    if success {
        return Ok(());
    }
    let mut message = String::new();
    message.append("command '");
    message.append(cmd);
    message.append("' exited with ");
    message.append(status);
    assert(message@ =~= failure_text(cmd@, status@));
    Err(CommandError { message })
}

/// The text that `String::from_utf8_lossy` makes of bytes.
pub uninterp spec fn utf8_lossy(bytes: Seq<u8>) -> Seq<char>;

/// Calls `String::from_utf8_lossy`. Claimed: its result is the one that
/// `utf8_lossy` names, and valid UTF-8 is decoded as it is. What stands in place of
/// invalid bytes (replacement characters) is not said.
#[verifier::external_body]
fn decode_lossy(bytes: &[u8]) -> (text: String)
    ensures
        text@ == utf8_lossy(bytes@),
        valid_utf8(bytes@) ==> text@ == decode_utf8(bytes@),
{
    String::from_utf8_lossy(bytes).into_owned()
}

/// A carriage return and a line feed.
pub open spec fn crlf() -> Seq<u8> {
    seq![0x0du8, 0x0au8]
}

/// `s` with each carriage return and line feed replaced by a line feed.
pub open spec fn with_unix_newlines(s: Seq<u8>) -> Seq<u8>
    decreases s.len(),
{
    if s.len() == 0 {
        Seq::empty()
    } else if s.len() > 1 && s[0] == 0x0d && s[1] == 0x0a {
        seq![0x0au8] + with_unix_newlines(s.skip(2))
    } else {
        seq![s[0]] + with_unix_newlines(s.skip(1))
    }
}

/// `s` as a terminal passes it on: each line feed gets a carriage return before
/// it.
pub open spec fn with_terminal_newlines(s: Seq<u8>) -> Seq<u8>
    decreases s.len(),
{
    if s.len() == 0 {
        Seq::empty()
    } else if s[0] == 0x0a {
        seq![0x0du8, 0x0au8] + with_terminal_newlines(s.skip(1))
    } else {
        seq![s[0]] + with_terminal_newlines(s.skip(1))
    }
}

proof fn lemma_kept_before_crlf(s: Seq<u8>, k: int)
    requires
        0 <= k <= s.len(),
        forall|i: int| 0 <= i < k ==> !occurs_at(s, crlf(), i),
    ensures
        with_unix_newlines(s) == s.take(k) + with_unix_newlines(s.skip(k)),
    decreases k,
{
    if k == 0 {
        assert(s.skip(0) =~= s);
        assert(s.take(0) + with_unix_newlines(s) =~= with_unix_newlines(s));
    } else {
        let rest = s.skip(1);
        if s.len() > 1 && s[0] == 0x0d && s[1] == 0x0a {
            assert(s.subrange(0, 2) =~= crlf());
            assert(occurs_at(s, crlf(), 0));
        }
        assert forall|i: int| 0 <= i < k - 1 implies !occurs_at(rest, crlf(), i) by {
            if occurs_at(rest, crlf(), i) {
                assert(s.subrange(i + 1, i + 3) =~= rest.subrange(i, i + 2));
                assert(occurs_at(s, crlf(), i + 1));
            }
        }
        lemma_kept_before_crlf(rest, k - 1);
        assert(rest.skip(k - 1) =~= s.skip(k));
        assert(seq![s[0]] + (rest.take(k - 1) + with_unix_newlines(s.skip(k))) =~= s.take(k)
            + with_unix_newlines(s.skip(k)));
    }
}

/// Replaces each carriage return and line feed by a line feed.
pub fn unix_newlines(s: &str) -> (out: String)
    ensures
        encode_utf8(out@) == with_unix_newlines(s.spec_bytes()),
{
    let bytes = s.as_bytes();
    let n: usize = bytes.len();
    let newline: [u8; 2] = [0x0d, 0x0a];
    let ghost text = s.spec_bytes();
    let ghost pat = crlf();
    let mut out = String::new();
    let mut pos: usize = 0;
    proof {
        lemma_str_view(s);
        reveal_strlit("\n");
        is_ascii_chars_encode_utf8("\n"@);
        assert("\n".spec_bytes() =~= seq![0x0au8]);
        is_char_boundary_start_end_of_seq(text);
        assert(newline@ =~= pat);
        assert(text.skip(0) =~= text);
        assert(encode_utf8(out@) + with_unix_newlines(text) =~= with_unix_newlines(text));
    }
    loop
        invariant
            bytes@ == text,
            text == s.spec_bytes(),
            n == text.len(),
            valid_utf8(text),
            newline@ == pat,
            pat == crlf(),
            "\n".spec_bytes() == seq![0x0au8],
            pos <= n,
            is_char_boundary(text, pos as int),
            is_char_boundary(text, n as int),
            encode_utf8(out@) + with_unix_newlines(text.skip(pos as int)) == with_unix_newlines(
                text,
            ),
        decreases n - pos,
    {
        let ghost before = out@;
        let ghost rest = text.skip(pos as int);
        proof {
            lemma_find_from(text, pat, pos as int);
            assert forall|i: int| 0 <= i <= n - pos && #[trigger] occurs_at(
                rest,
                pat,
                i,
            ) implies occurs_at(text, pat, pos + i) by {
                assert(text.subrange(pos + i, pos + i + 2) =~= rest.subrange(i, i + 2));
            }
        }
        match find(bytes, newline.as_slice(), pos) {
            Some(end) => {
                proof {
                    let found = text.subrange(end as int, end + 2);
                    assert(found[0] == 0x0d && found[1] == 0x0a);
                    lemma_ascii_boundaries(text, end as int);
                    lemma_ascii_boundaries(text, end + 1);
                    lemma_kept_before_crlf(rest, end - pos);
                    assert(rest.take(end - pos) =~= text.subrange(pos as int, end as int));
                    assert(rest.skip(end - pos) =~= text.skip(end as int));
                    assert(text.skip(end as int).skip(2) =~= text.skip(end + 2));
                }
                let part = slice(s, pos, end);
                out.append(part);
                out.append("\n");
                proof {
                    lemma_encode_concat(before, part@);
                    lemma_encode_concat(before + part@, "\n"@);
                    assert(encode_utf8(out@) + with_unix_newlines(text.skip(end + 2))
                        =~= encode_utf8(before) + (part.spec_bytes() + (seq![0x0au8]
                        + with_unix_newlines(text.skip(end + 2)))));
                }
                pos = end + 2;
            },
            None => {
                proof {
                    lemma_kept_before_crlf(rest, n - pos);
                    assert(rest.take(n - pos) + with_unix_newlines(rest.skip(n - pos)) =~= rest);
                }
                let part = slice(s, pos, n);
                out.append(part);
                proof {
                    assert(part.spec_bytes() =~= rest);
                    lemma_encode_concat(before, part@);
                }
                return out;
            },
        }
    }
}

/// The output of a command as text: the bytes decoded, and the carriage returns
/// that its terminal added taken out. Refused where the command did not succeed.
pub fn command_output(success: bool, status: &str, cmd: &str, output: &[u8]) -> (r: Result<
    String,
    CommandError,
>)
    ensures
        match r {
            Ok(text) => success && encode_utf8(text@) == with_unix_newlines(
                encode_utf8(utf8_lossy(output@)),
            ),
            Err(e) => !success && e.message@ == failure_text(cmd@, status@),
        },
        r matches Err(e) ==> e.message@ == "command '"@ + cmd@ + "' exited with "@ + status@,
        success && valid_utf8(output@) ==> encode_utf8(r->Ok_0@) == with_unix_newlines(output@),
{
    match check_cmd_status(success, status, cmd) {
        Ok(_) => {
            let text = decode_lossy(output);
            proof {
                if valid_utf8(output@) {
                    decode_utf8_encode_utf8(output@);
                }
            }
            Ok(unix_newlines(text.as_str()))
        },
        Err(e) => Err(e),
    }
}

/// What a terminal does to line feeds is undone, whatever the text.
pub proof fn law_terminal_newlines_are_undone(s: Seq<u8>)
    ensures
        with_unix_newlines(with_terminal_newlines(s)) == s,
    decreases s.len(),
{
    if s.len() > 0 {
        let rest = s.skip(1);
        let passed = with_terminal_newlines(rest);
        let all = with_terminal_newlines(s);
        law_terminal_newlines_are_undone(rest);
        if s[0] == 0x0a {
            assert(all.skip(2) =~= passed);
        } else {
            assert(all.skip(1) =~= passed);
            if all.len() > 1 {
                assert(all[1] == passed[0]);
                assert(passed[0] != 0x0a);
            }
        }
        assert(seq![s[0]] + rest =~= s);
    }
}

/// Text in which no carriage return stands before a line feed stays as it is.
pub proof fn law_unix_text_is_kept(s: Seq<u8>)
    requires
        forall|i: int| !#[trigger] occurs_at(s, crlf(), i),
    ensures
        with_unix_newlines(s) == s,
{
    lemma_kept_before_crlf(s, s.len() as int);
    assert(s.take(s.len() as int) + with_unix_newlines(s.skip(s.len() as int)) =~= s);
}

/// Each carriage return and line feed becomes a line feed and all else stays, by
/// the bytes: `plain` holds no such pair.
pub proof fn law_pairs_become_newlines(plain: Seq<u8>, rest: Seq<u8>)
    requires
        forall|i: int|
            0 <= i < plain.len() - 1 && #[trigger] plain[i] == 0x0d ==> plain[i + 1] != 0x0a,
    ensures
        with_unix_newlines(plain) == plain,
        with_unix_newlines(plain + seq![0x0du8, 0x0au8] + rest) == plain + seq![0x0au8]
            + with_unix_newlines(rest),
{
    let n = plain.len() as int;
    let all = plain + seq![0x0du8, 0x0au8] + rest;
    assert forall|i: int| 0 <= i < n implies !occurs_at(plain, crlf(), i) by {
        if occurs_at(plain, crlf(), i) {
            assert(plain.subrange(i, i + 2)[0] == 0x0d && plain.subrange(i, i + 2)[1] == 0x0a);
            assert(plain[i] == 0x0d && plain[i + 1] == 0x0a);
        }
    }
    lemma_kept_before_crlf(plain, n);
    assert(plain.take(n) + with_unix_newlines(plain.skip(n)) =~= plain);
    assert forall|i: int| 0 <= i < n implies !occurs_at(all, crlf(), i) by {
        if occurs_at(all, crlf(), i) {
            assert(all.subrange(i, i + 2)[0] == 0x0d && all.subrange(i, i + 2)[1] == 0x0a);
            assert(all[i] == plain[i]);
            if i + 1 < n {
                assert(all[i + 1] == plain[i + 1]);
            }
        }
    }
    lemma_kept_before_crlf(all, n);
    assert(all.take(n) =~= plain);
    let tail = all.skip(n);
    assert(tail[0] == 0x0d && tail[1] == 0x0a);
    assert(tail.skip(2) =~= rest);
    assert(plain + (seq![0x0au8] + with_unix_newlines(rest)) =~= plain + seq![0x0au8]
        + with_unix_newlines(rest));
}

/// The command's terminal is as wide as the real one and one row shorter, the row
/// of the status bar, but has a row and a column at least. A terminal of unknown
/// size counts as one of 80 columns and 24 rows.
pub proof fn law_command_sees_the_terminal(cols: u16, rows: u16)
    ensures
        ({
            let (r, c) = command_window(Some((cols, rows)));
            &&& r >= 1 && c >= 1
            &&& cols >= 1 ==> c == cols
            &&& cols == 0 ==> c == 1
            &&& rows >= 2 ==> r + 1 == rows
            &&& rows < 2 ==> r == 1
        }),
        command_window(None) == command_window(Some((80u16, 24u16))),
{
}

/// A read adds the bytes it put into the buffer to the output, in order, and leaves
/// what was there. There is more to read exactly after a read that gave bytes, and
/// only a failure fails.
pub proof fn law_reads_are_collected(output: Seq<u8>, buf: Seq<u8>, outcome: ReadOutcome)
    requires
        outcome matches ReadOutcome::Bytes(n) ==> n <= buf.len(),
    ensures
        ({
            let (more, next) = after_read(output, buf, outcome);
            let got: int = match outcome {
                ReadOutcome::Bytes(n) => n as int,
                _ => 0,
            };
            &&& more.len() == output.len() + got
            &&& forall|i: int| 0 <= i < output.len() ==> #[trigger] more[i] == output[i]
            &&& forall|i: int|
                0 <= i < got ==> #[trigger] more[output.len() + i] == buf[i]
            &&& next == ReadNext::More <==> got > 0
            &&& next == ReadNext::Fail <==> outcome is Failed
        }),
{
}

/// The message names the whole command and the whole status.
pub proof fn law_failure_is_named(cmd: Seq<char>, status: Seq<char>)
    ensures
        failure_text(cmd, status) == seq!['c', 'o', 'm', 'm', 'a', 'n', 'd', ' ', '\''] + cmd + seq![
            '\'',
            ' ',
            'e',
            'x',
            'i',
            't',
            'e',
            'd',
            ' ',
            'w',
            'i',
            't',
            'h',
            ' ',
        ] + status,
{
    reveal_strlit("command '");
    reveal_strlit("' exited with ");
    assert("command '"@ =~= seq!['c', 'o', 'm', 'm', 'a', 'n', 'd', ' ', '\'']);
    assert("' exited with "@ =~= seq![
        '\'',
        ' ',
        'e',
        'x',
        'i',
        't',
        'e',
        'd',
        ' ',
        'w',
        'i',
        't',
        'h',
        ' ',
    ]);
}

} // verus!
