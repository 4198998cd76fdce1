//! Drawing a page: the bytes that show its visible lines and the status bar.

use crossterm::cursor::MoveTo;
use crossterm::terminal::{Clear, ClearType};
use crossterm::Command;
use vstd::prelude::*;
use vstd::slice::slice_subrange;
use vstd::string::*;
use vstd::utf8::*;

use crate::ansi::collect_ansi_state;
#[allow(unused_imports)]
use crate::ansi::{in_effect, sgr_of};
use crate::pages::Page;
#[allow(unused_imports)]
use crate::pages::PageView;
#[allow(unused_imports)]
use crate::text::bytes_of;

verus! {

/// The decimal digit for a number below ten.
pub open spec fn digit(d: int) -> char {
    (48 + d) as char
}

/// `n` in decimal digits.
pub open spec fn decimal(n: int) -> Seq<char>
    decreases n,
{
    if n < 10 {
        seq![digit(n)]
    } else {
        decimal(n / 10).push(digit(n % 10))
    }
}

fn digit_str(d: usize) -> (s: &'static str)
    requires
        d < 10,
    ensures
        s@ == seq![digit(d as int)],
{
    proof {
        reveal_strlit("0");
        reveal_strlit("1");
        reveal_strlit("2");
        reveal_strlit("3");
        reveal_strlit("4");
        reveal_strlit("5");
        reveal_strlit("6");
        reveal_strlit("7");
        reveal_strlit("8");
        reveal_strlit("9");
    }
    let s = match d {
        0 => "0",
        1 => "1",
        2 => "2",
        3 => "3",
        4 => "4",
        5 => "5",
        6 => "6",
        7 => "7",
        8 => "8",
        _ => "9",
    };
    assert(s@ =~= seq![digit(d as int)]);
    s
}

/// `n` in decimal digits.
pub fn to_decimal(n: usize) -> (s: String)
    ensures
        s@ == decimal(n as int),
    decreases n,
{
    if n < 10 {
        let mut s = String::new();
        s.append(digit_str(n));
        assert(s@ =~= decimal(n as int));
        s
    } else {
        let mut s = to_decimal(n / 10);
        s.append(digit_str(n % 10));
        assert(s@ =~= decimal(n as int));
        s
    }
}

/// The control sequence that clears the screen.
pub open spec fn clear_code() -> Seq<char> {
    seq!['\u{1b}', '[', '2', 'J']
}

/// The control sequence that moves the cursor to the start of a row, counted from
/// zero.
pub open spec fn move_code(row: int) -> Seq<char> {
    seq!['\u{1b}', '['] + decimal(row + 1) + seq![';', '1', 'H']
}

/// Writes `crossterm::terminal::Clear(ClearType::All)` with its `write_ansi`.
/// Claimed: it writes `ESC [ 2 J`, and writing to a string does not fail.
#[verifier::external_body]
fn clear_all() -> (code: String)
    ensures
        code@ == clear_code(),
{
    let mut code = String::new();
    let _ = Clear(ClearType::All).write_ansi(&mut code);
    code
}

/// Writes `crossterm::cursor::MoveTo` for the first column of `row` with its
/// `write_ansi`. Claimed: it writes `ESC [`, the row and the column counted from
/// one with `;` between them, and `H`, and writing to a string does not fail. The
/// row after `row` must be a `u16`, since `write_ansi` adds one to it.
#[verifier::external_body]
fn move_to_row(row: u16) -> (code: String)
    requires
        row < u16::MAX,
    ensures
        code@ == move_code(row as int),
{
    let mut code = String::new();
    let _ = MoveTo(0, row).write_ansi(&mut code);
    code
}

/// The first line that no longer fits: `height` lines are shown from `scroll` on.
pub open spec fn visible_end(len: int, scroll: int, height: int) -> int {
    if len < scroll + height {
        len
    } else {
        scroll + height
    }
}

/// The bytes of row `i`: the cursor is moved there, and the first row starts with
/// the attributes that the lines above left in effect.
pub open spec fn row_bytes(shown: Seq<Seq<u8>>, prefix: Seq<u8>, i: int) -> Seq<u8> {
    encode_utf8(move_code(i)) + (if i == 0 {
        prefix
    } else {
        Seq::empty()
    }) + shown[i]
}

/// The bytes of the first `n` rows.
pub open spec fn rows_bytes(shown: Seq<Seq<u8>>, prefix: Seq<u8>, n: int) -> Seq<u8>
    decreases n,
{
    if n <= 0 {
        Seq::empty()
    } else {
        rows_bytes(shown, prefix, n - 1) + row_bytes(shown, prefix, n - 1)
    }
}

/// The page's number, counted from one, and the number of pages.
pub open spec fn place_text(page: int, total: int) -> Seq<char> {
    seq![' ', '['] + decimal(page + 1) + seq!['/'] + decimal(total) + seq![']', ' ']
}

/// The text of the status bar: the place, the notice and the title where there
/// are such. The notice goes first, so that a long title does not push it out.
pub open spec fn status_text(
    page: int,
    total: int,
    title: Option<Seq<char>>,
    notice: Option<Seq<char>>,
) -> Seq<char> {
    let noted = match notice {
        Some(t) => place_text(page, total) + t + seq![' '],
        None => place_text(page, total),
    };
    match title {
        Some(t) => noted + t + seq![' '],
        None => noted,
    }
}

/// `text` cut or padded with spaces to exactly `width` characters.
pub open spec fn fitted(text: Seq<char>, width: int) -> Seq<char> {
    Seq::new(
        width as nat,
        |i: int|
            if i < text.len() {
                text[i]
            } else {
                ' '
            },
    )
}

/// The status bar: reverse video on, the text, all attributes off.
pub open spec fn status_bar(text: Seq<char>, width: int) -> Seq<char> {
    seq!['\u{1b}', '[', '7', 'm'] + fitted(text, width) + seq!['\u{1b}', '[', '0', 'm']
}

/// The bytes that draw a page: the cleared screen, the visible lines, all
/// attributes off, and the status bar on the last of `term_h` rows.
pub open spec fn frame(
    page: PageView,
    scroll: int,
    height: int,
    width: int,
    term_h: int,
    status: Seq<char>,
) -> Seq<u8> {
    let end = visible_end(page.lines.len() as int, scroll, height);
    let prefix = in_effect(sgr_of(page.lines.take(scroll)));
    encode_utf8(clear_code()) + rows_bytes(
        page.lines.subrange(scroll, end),
        prefix,
        end - scroll,
    ) + encode_utf8(seq!['\u{1b}', '[', '0', 'm']) + encode_utf8(move_code(term_h - 1))
        + encode_utf8(status_bar(status, width))
}

/// Appends the bytes of `s`.
fn put(out: &mut Vec<u8>, s: &str)
    ensures
        final(out)@ == old(out)@ + s.spec_bytes(),
{
    let ghost before = out@;
    out.extend_from_slice(s.as_bytes());
    assert(out@ =~= before + s.spec_bytes());
}

/// The text of the status bar.
pub fn status_line(
    page: usize,
    total: usize,
    title: &Option<String>,
    notice: Option<&str>,
) -> (status: String)
    requires
        page < usize::MAX,
    ensures
        status@ == status_text(
            page as int,
            total as int,
            match *title {
                Some(t) => Some(t@),
                None => None,
            },
            match notice {
                Some(t) => Some(t@),
                None => None,
            },
        ),
{
    proof {
        reveal_strlit(" [");
        reveal_strlit("/");
        reveal_strlit("] ");
        reveal_strlit(" ");
        assert(" ["@ =~= seq![' ', '[']);
        assert("/"@ =~= seq!['/']);
        assert("] "@ =~= seq![']', ' ']);
        assert(" "@ =~= seq![' ']);
    }
    let mut status = String::new();
    status.append(" [");
    status.append(to_decimal(page + 1).as_str());
    status.append("/");
    status.append(to_decimal(total).as_str());
    status.append("] ");
    assert(status@ =~= place_text(page as int, total as int));
    if let Some(t) = notice {
        status.append(t);
        status.append(" ");
    }
    if let Some(t) = title {
        status.append(t.as_str());
        status.append(" ");
    }
    status
}

/// `text` cut or padded with spaces to exactly `width` characters.
pub fn fit(text: &str, width: usize) -> (out: String)
    ensures
        out@ == fitted(text@, width as int),
{
    let n: usize = text.unicode_len();
    let mut out = String::new();
    if n >= width {
        out.append(text.substring_char(0, width));
        assert(out@ =~= fitted(text@, width as int));
        return out;
    }
    out.append(text);
    let mut k: usize = n;
    proof {
        reveal_strlit(" ");
    }
    assert(out@ =~= fitted(text@, n as int));
    while k < width
        invariant
            n == text@.len(),
            n <= k <= width,
            out@ == fitted(text@, k as int),
        decreases width - k,
    {
        proof {
            reveal_strlit(" ");
        }
        out.append(" ");
        k = k + 1;
        assert(out@ =~= fitted(text@, k as int));
    }
    out
}

/// Appends the bytes that draw a page with `status` in the status bar.
fn draw(
    out: &mut Vec<u8>,
    page_content: &Page<'_>,
    scroll: usize,
    height: usize,
    width: u16,
    term_h: u16,
    status: &str,
)
    requires
        scroll <= page_content.lines@.len(),
        visible_end(page_content.lines@.len() as int, scroll as int, height as int) - scroll
            <= u16::MAX,
        0 < term_h,
    ensures
        final(out)@ == old(out)@ + frame(
            page_content@,
            scroll as int,
            height as int,
            width as int,
            term_h as int,
            status@,
        ),
{
    let lines = page_content.lines.as_slice();
    let n: usize = lines.len();
    let ghost all = bytes_of(lines@);
    let ghost given = out@;
    let code = clear_all();
    put(out, code.as_str());
    let above = slice_subrange(lines, 0, scroll);
    let ansi_prefix = collect_ansi_state(above);
    let ghost prefix = in_effect(sgr_of(all.take(scroll as int)));
    assert(bytes_of(above@) =~= all.take(scroll as int));
    let end: usize = if n - scroll < height {
        n
    } else {
        scroll + height
    };
    let ghost shown = all.subrange(scroll as int, end as int);
    let ghost head = given + encode_utf8(clear_code());
    let count: usize = end - scroll;
    let mut i: usize = 0;
    assert(head + rows_bytes(shown, prefix, 0) =~= head);
    while i < count
        invariant
            n == lines@.len(),
            all == bytes_of(lines@),
            scroll <= end <= n,
            count == end - scroll,
            count <= u16::MAX,
            i <= count,
            shown == all.subrange(scroll as int, end as int),
            encode_utf8(ansi_prefix@) == prefix,
            out@ == head + rows_bytes(shown, prefix, i as int),
        decreases count - i,
    {
        let ghost before = out@;
        let code = move_to_row(i as u16);
        put(out, code.as_str());
        if i == 0 {
            put(out, ansi_prefix.as_str());
        }
        let line = lines[scroll + i];
        put(out, line);
        proof {
            assert(shown[i as int] == line.spec_bytes());
            assert(out@ =~= before + row_bytes(shown, prefix, i as int));
            assert(out@ =~= head + rows_bytes(shown, prefix, i + 1));
        }
        i = i + 1;
    }
    proof {
        reveal_strlit("\u{1b}[0m");
        reveal_strlit("\u{1b}[7m");
        assert("\u{1b}[0m"@ =~= seq!['\u{1b}', '[', '0', 'm']);
        assert("\u{1b}[7m"@ =~= seq!['\u{1b}', '[', '7', 'm']);
    }
    put(out, "\u{1b}[0m");
    let code = move_to_row(term_h - 1);
    put(out, code.as_str());
    let text = fit(status, width as usize);
    let mut bar = String::new();
    bar.append("\u{1b}[7m");
    bar.append(text.as_str());
    bar.append("\u{1b}[0m");
    assert(bar@ =~= status_bar(status@, width as int));
    put(out, bar.as_str());
    assert(out@ =~= given + frame(
        page_content@,
        scroll as int,
        height as int,
        width as int,
        term_h as int,
        status@,
    ));
}

/// Appends the bytes that draw a page scrolled down by `scroll` lines, of which
/// `height` fit on the screen, on a terminal of `width` columns and `term_h` rows.
/// It is page `page`, counted from zero, of `total`.
pub fn render(
    out: &mut Vec<u8>,
    page_content: &Page<'_>,
    scroll: usize,
    height: usize,
    width: u16,
    term_h: u16,
    page: usize,
    total: usize,
)
    requires
        scroll <= page_content.lines@.len(),
        visible_end(page_content.lines@.len() as int, scroll as int, height as int) - scroll
            <= u16::MAX,
        0 < term_h,
        page < usize::MAX,
    ensures
        final(out)@ == old(out)@ + frame(
            page_content@,
            scroll as int,
            height as int,
            width as int,
            term_h as int,
            status_text(page as int, total as int, page_content@.title, None),
        ),
{
    let status = status_line(page, total, &page_content.title, None);
    draw(out, page_content, scroll, height, width, term_h, status.as_str());
}

/// Draws a page as `render` does, with a notice in the status bar.
pub fn render_with_notice(
    out: &mut Vec<u8>,
    page_content: &Page<'_>,
    scroll: usize,
    height: usize,
    width: u16,
    term_h: u16,
    page: usize,
    total: usize,
    notice: &str,
)
    requires
        scroll <= page_content.lines@.len(),
        visible_end(page_content.lines@.len() as int, scroll as int, height as int) - scroll
            <= u16::MAX,
        0 < term_h,
        page < usize::MAX,
    ensures
        final(out)@ == old(out)@ + frame(
            page_content@,
            scroll as int,
            height as int,
            width as int,
            term_h as int,
            status_text(page as int, total as int, page_content@.title, Some(notice@)),
        ),
{
    let status = status_line(page, total, &page_content.title, Some(notice));
    draw(out, page_content, scroll, height, width, term_h, status.as_str());
}

/// The status bar fills its row: it is exactly as wide as the terminal, and shows
/// as much of its text as fits.
pub proof fn law_status_fills_the_row(text: Seq<char>, width: int)
    requires
        0 <= width,
    ensures
        fitted(text, width).len() == width,
        text.len() <= width ==> fitted(text, width).take(text.len() as int) == text,
        width <= text.len() ==> fitted(text, width) == text.take(width),
{
    if text.len() <= width {
        assert(fitted(text, width).take(text.len() as int) =~= text);
    }
    if width <= text.len() {
        assert(fitted(text, width) =~= text.take(width));
    }
}

/// A notice is reported whatever the title: the status bar starts with the place
/// and then as much of the notice as fits.
pub proof fn law_notice_is_reported(
    page: int,
    total: int,
    title: Option<Seq<char>>,
    notice: Seq<char>,
    width: int,
)
    requires
        0 <= width,
    ensures
        ({
            let head = place_text(page, total) + notice;
            let bar = fitted(status_text(page, total, title, Some(notice)), width);
            if head.len() <= width {
                bar.take(head.len() as int) == head
            } else {
                bar == head.take(width)
            }
        }),
{
    let head = place_text(page, total) + notice;
    let text = status_text(page, total, title, Some(notice));
    let bar = fitted(text, width);
    assert(text.take(head.len() as int) =~= head);
    assert forall|i: int| 0 <= i < head.len() implies text[i] == head[i] by {
        assert(text.take(head.len() as int)[i] == text[i]);
    }
    if head.len() <= width {
        assert(bar.take(head.len() as int) =~= head);
    } else {
        assert(bar =~= head.take(width));
    }
}

/// On screen are as many lines as fit, or all that are left.
pub proof fn law_lines_fill_the_screen(len: int, scroll: int, height: int)
    requires
        0 <= scroll <= len,
        0 <= height,
    ensures
        scroll <= visible_end(len, scroll, height) <= len,
        visible_end(len, scroll, height) - scroll <= height,
        visible_end(len, scroll, height) < len ==> visible_end(len, scroll, height) - scroll
            == height,
{
}

/// The number that decimal digits stand for.
pub open spec fn number_of(digits: Seq<char>) -> int
    decreases digits.len(),
{
    if digits.len() == 0 {
        0
    } else {
        10 * number_of(digits.drop_last()) + (digits.last() as int - '0' as int)
    }
}

/// A number in decimal is digits that stand for it, without a zero in front.
pub proof fn law_decimal_is_the_number(n: int)
    requires
        0 <= n,
    ensures
        number_of(decimal(n)) == n,
        decimal(n).len() > 0,
        forall|i: int| 0 <= i < decimal(n).len() ==> '0' <= #[trigger] decimal(n)[i] <= '9',
        decimal(n)[0] == '0' ==> n == 0 && decimal(n).len() == 1,
    decreases n,
{
    reveal_with_fuel(number_of, 2);
    if n < 10 {
        assert(decimal(n).drop_last() =~= Seq::<char>::empty());
        assert(decimal(n).last() == digit(n));
    } else {
        law_decimal_is_the_number(n / 10);
        let before = decimal(n / 10);
        assert(decimal(n).drop_last() =~= before);
        assert(decimal(n)[0] == before[0]);
        assert(decimal(n).last() == digit(n % 10));
    }
}

/// Different rows have different control sequences: each moves the cursor to the
/// first column of its row, and rows count from one on the terminal.
pub proof fn law_rows_are_told_apart(i: int, j: int)
    requires
        0 <= i,
        0 <= j,
    ensures
        move_code(i) == seq!['\u{1b}', '['] + decimal(i + 1) + seq![';', '1', 'H'],
        move_code(i) == move_code(j) ==> i == j,
        clear_code() == seq!['\u{1b}', '[', '2', 'J'],
{
    if move_code(i) == move_code(j) {
        let a = decimal(i + 1);
        let b = decimal(j + 1);
        assert(a.len() == b.len()) by {
            assert(move_code(i).len() == a.len() + 5);
            assert(move_code(j).len() == b.len() + 5);
        }
        assert(a =~= move_code(i).subrange(2, 2 + a.len() as int));
        assert(b =~= move_code(j).subrange(2, 2 + b.len() as int));
        law_decimal_is_the_number(i + 1);
        law_decimal_is_the_number(j + 1);
    }
}

proof fn lemma_rows_are_drawn(shown: Seq<Seq<u8>>, prefix: Seq<u8>, n: int)
    requires
        0 <= n <= shown.len(),
    ensures
        rows_bytes(shown, prefix, n) == Seq::new(
            n as nat,
            |i: int|
                encode_utf8(seq!['\u{1b}', '['] + decimal(i + 1) + seq![';', '1', 'H']) + (if i == 0 {
                    prefix
                } else {
                    Seq::empty()
                }) + shown[i],
        ).flatten(),
    decreases n,
{
    let rows = Seq::new(
        n as nat,
        |i: int|
            encode_utf8(seq!['\u{1b}', '['] + decimal(i + 1) + seq![';', '1', 'H']) + (if i == 0 {
                prefix
            } else {
                Seq::empty()
            }) + shown[i],
    );
    if n > 0 {
        lemma_rows_are_drawn(shown, prefix, n - 1);
        let before = rows.drop_last();
        assert(before =~= Seq::new(
            (n - 1) as nat,
            |i: int|
                encode_utf8(seq!['\u{1b}', '['] + decimal(i + 1) + seq![';', '1', 'H']) + (if i == 0 {
                    prefix
                } else {
                    Seq::empty()
                }) + shown[i],
        ));
        assert(before.push(rows.last()) =~= rows);
        before.lemma_flatten_push(rows.last());
        assert(rows.last() == row_bytes(shown, prefix, n - 1));
    }
}

/// What is drawn, by the bytes. The screen is cleared. Line `scroll + i` stands on
/// row `i`, one line on each row, and the first begins with the attributes that
/// the lines above left in effect. Then all attributes are reset, and the status
/// bar stands in reverse video on the last row.
pub proof fn law_what_is_drawn(
    page: PageView,
    scroll: int,
    height: int,
    width: int,
    term_h: int,
    status: Seq<char>,
)
    requires
        0 <= scroll <= page.lines.len(),
        0 <= height,
    ensures
        frame(page, scroll, height, width, term_h, status) == encode_utf8(
            seq!['\u{1b}', '[', '2', 'J'],
        ) + Seq::new(
            (if page.lines.len() - scroll < height {
                page.lines.len() - scroll
            } else {
                height
            }) as nat,
            |i: int|
                encode_utf8(seq!['\u{1b}', '['] + decimal(i + 1) + seq![';', '1', 'H']) + (if i == 0 {
                    in_effect(sgr_of(page.lines.take(scroll)))
                } else {
                    Seq::empty()
                }) + page.lines[scroll + i],
        ).flatten() + encode_utf8(seq!['\u{1b}', '[', '0', 'm']) + encode_utf8(
            seq!['\u{1b}', '['] + decimal(term_h) + seq![';', '1', 'H'],
        ) + encode_utf8(
            seq!['\u{1b}', '[', '7', 'm'] + fitted(status, width) + seq!['\u{1b}', '[', '0', 'm'],
        ),
{
    let end = visible_end(page.lines.len() as int, scroll, height);
    let prefix = in_effect(sgr_of(page.lines.take(scroll)));
    let shown = page.lines.subrange(scroll, end);
    lemma_rows_are_drawn(shown, prefix, end - scroll);
    assert(Seq::new(
        (end - scroll) as nat,
        |i: int|
            encode_utf8(seq!['\u{1b}', '['] + decimal(i + 1) + seq![';', '1', 'H']) + (if i == 0 {
                prefix
            } else {
                Seq::empty()
            }) + shown[i],
    ) =~= Seq::new(
        (if page.lines.len() - scroll < height {
            page.lines.len() - scroll
        } else {
            height
        }) as nat,
        |i: int|
            encode_utf8(seq!['\u{1b}', '['] + decimal(i + 1) + seq![';', '1', 'H']) + (if i == 0 {
                in_effect(sgr_of(page.lines.take(scroll)))
            } else {
                Seq::empty()
            }) + page.lines[scroll + i],
    ));
}

proof fn lemma_flatten_around(parts: Seq<Seq<u8>>, i: int)
    requires
        0 <= i < parts.len(),
    ensures
        parts.flatten() == parts.take(i).flatten() + parts[i] + parts.skip(i + 1).flatten(),
    decreases i,
{
    if i == 0 {
        assert(parts.take(0) =~= Seq::<Seq<u8>>::empty());
        assert(parts.drop_first() =~= parts.skip(1));
        assert(parts.take(0).flatten() + parts[0] + parts.skip(1).flatten() =~= parts.flatten());
    } else {
        let rest = parts.drop_first();
        lemma_flatten_around(rest, i - 1);
        assert(parts.take(i).drop_first() =~= rest.take(i - 1));
        assert(rest.skip(i) =~= parts.skip(i + 1));
        assert(parts.take(i).flatten() + parts[i] + parts.skip(i + 1).flatten()
            =~= parts.flatten());
    }
}

/// Each visible line is on a row of its own: line `scroll + i` is drawn right after
/// the cursor was moved to row `i`, which the terminal counts as `i + 1`, and
/// before it stand the rows above.
pub proof fn law_each_line_on_its_row(
    page: PageView,
    scroll: int,
    height: int,
    width: int,
    term_h: int,
    status: Seq<char>,
    i: int,
) -> (around: (Seq<u8>, Seq<u8>))
    requires
        0 <= scroll,
        0 <= i < height,
        scroll + i < page.lines.len(),
    ensures
        frame(page, scroll, height, width, term_h, status) == around.0 + encode_utf8(
            seq!['\u{1b}', '['] + decimal(i + 1) + seq![';', '1', 'H'],
        ) + (if i == 0 {
            in_effect(sgr_of(page.lines.take(scroll)))
        } else {
            Seq::empty()
        }) + page.lines[scroll + i] + around.1,
        around.0 == encode_utf8(seq!['\u{1b}', '[', '2', 'J']) + Seq::new(
            i as nat,
            |k: int|
                encode_utf8(seq!['\u{1b}', '['] + decimal(k + 1) + seq![';', '1', 'H']) + (if k == 0 {
                    in_effect(sgr_of(page.lines.take(scroll)))
                } else {
                    Seq::empty()
                }) + page.lines[scroll + k],
        ).flatten(),
{
    law_what_is_drawn(page, scroll, height, width, term_h, status);
    let rows = Seq::new(
        (if page.lines.len() - scroll < height {
            page.lines.len() - scroll
        } else {
            height
        }) as nat,
        |k: int|
            encode_utf8(seq!['\u{1b}', '['] + decimal(k + 1) + seq![';', '1', 'H']) + (if k == 0 {
                in_effect(sgr_of(page.lines.take(scroll)))
            } else {
                Seq::empty()
            }) + page.lines[scroll + k],
    );
    let above = Seq::new(
        i as nat,
        |k: int|
            encode_utf8(seq!['\u{1b}', '['] + decimal(k + 1) + seq![';', '1', 'H']) + (if k == 0 {
                in_effect(sgr_of(page.lines.take(scroll)))
            } else {
                Seq::empty()
            }) + page.lines[scroll + k],
    );
    assert(rows.take(i) =~= above);
    lemma_flatten_around(rows, i);
    let head = encode_utf8(seq!['\u{1b}', '[', '2', 'J']);
    let off = encode_utf8(seq!['\u{1b}', '[', '0', 'm']);
    let to_bar = encode_utf8(seq!['\u{1b}', '['] + decimal(term_h) + seq![';', '1', 'H']);
    let bar = encode_utf8(
        seq!['\u{1b}', '[', '7', 'm'] + fitted(status, width) + seq!['\u{1b}', '[', '0', 'm'],
    );
    let below = rows.skip(i + 1).flatten();
    lemma_split_around(
        head,
        above.flatten(),
        encode_utf8(seq!['\u{1b}', '['] + decimal(i + 1) + seq![';', '1', 'H']),
        if i == 0 {
            in_effect(sgr_of(page.lines.take(scroll)))
        } else {
            Seq::empty()
        },
        page.lines[scroll + i],
        below,
        off + to_bar + bar,
    );
    assert(head + rows.flatten() + off + to_bar + bar =~= head + rows.flatten() + (off + to_bar
        + bar));
    (head + above.flatten(), below + (off + to_bar + bar))
}

proof fn lemma_split_around(
    head: Seq<u8>,
    above: Seq<u8>,
    x: Seq<u8>,
    y: Seq<u8>,
    z: Seq<u8>,
    below: Seq<u8>,
    tail: Seq<u8>,
)
    ensures
        head + (above + (x + y + z) + below) + tail == (head + above) + x + y + z + (below + tail),
{
    assert(head + (above + (x + y + z) + below) + tail =~= (head + above) + x + y + z + (below
        + tail));
}

/// What the status bar says: ` [page/total] `, counted from one, then the notice
/// and the title, each followed by a space, where there are such.
pub proof fn law_what_the_status_says(page: int, total: int, title: Seq<char>, notice: Seq<char>)
    ensures
        ({
            let place = seq![' ', '['] + decimal(page + 1) + seq!['/'] + decimal(total) + seq![
                ']',
                ' ',
            ];
            &&& status_text(page, total, None, None) == place
            &&& status_text(page, total, Some(title), None) == place + title + seq![' ']
            &&& status_text(page, total, None, Some(notice)) == place + notice + seq![' ']
            &&& status_text(page, total, Some(title), Some(notice)) == place + notice + seq![' ']
                + title + seq![' ']
        }),
{
}

/// The rest of the status bar's row is spaces.
pub proof fn law_status_is_padded_with_spaces(text: Seq<char>, width: int, i: int)
    requires
        0 <= i < width,
    ensures
        i < text.len() ==> fitted(text, width)[i] == text[i],
        text.len() <= i ==> fitted(text, width)[i] == ' ',
{
}

} // verus!
