use pager::ansi::{collect_ansi_state, escape_len, strip_ansi};
use pager::text::{blank, find, lines, same_text, slice, white_space};
use std::borrow::Cow;

#[test]
fn strip_ansi_leaves_plain_text_borrowed() {
    assert!(matches!(strip_ansi("plain"), Cow::Borrowed("plain")));
}

#[test]
fn strip_ansi_removes_color_codes() {
    assert_eq!(strip_ansi("\x1b[1m\x1b[93mfile\x1b[0m --- Rust"), "file --- Rust");
}

#[test]
fn strip_ansi_handles_trailing_escape() {
    assert_eq!(strip_ansi("text\x1b"), "text");
    assert_eq!(strip_ansi("text\x1b["), "text");
}

#[test]
fn strip_ansi_preserves_multibyte_text() {
    assert_eq!(strip_ansi("\x1b[31mnaïve → ok\x1b[0m"), "naïve → ok");
}

#[test]
fn ansi_state_empty() {
    assert_eq!(collect_ansi_state(&[]), "");
}

#[test]
fn ansi_state_no_escapes() {
    assert_eq!(collect_ansi_state(&["hello", "world"]), "");
}

#[test]
fn ansi_state_tracks_color() {
    let lines = &["\x1b[31mred text"];
    assert_eq!(collect_ansi_state(lines), "\x1b[31m");
}

#[test]
fn ansi_state_reset_clears() {
    let lines = &["\x1b[31mred\x1b[0m plain"];
    assert_eq!(collect_ansi_state(lines), "");
}

#[test]
fn ansi_state_short_reset_clears() {
    let lines = &["\x1b[32mgreen\x1b[m plain"];
    assert_eq!(collect_ansi_state(lines), "");
}

#[test]
fn ansi_state_accumulates_across_lines() {
    let lines = &["\x1b[1mbold", "\x1b[31mred"];
    assert_eq!(collect_ansi_state(lines), "\x1b[1m\x1b[31m");
}

#[test]
fn ansi_state_reset_mid_sequence() {
    let lines = &["\x1b[1m\x1b[31mbold red", "\x1b[0m\x1b[34mblue"];
    assert_eq!(collect_ansi_state(lines), "\x1b[34m");
}

#[test]
fn ansi_state_drops_broken_sequences() {
    assert_eq!(collect_ansi_state(&["\x1b[31", "m\x1b[1;\x1b[4mx"]), "\x1b[4m");
    assert_eq!(collect_ansi_state(&["\x1b[2Kå m"]), "\x1b[2Kå m");
    assert_eq!(collect_ansi_state(&["\x1b", "\x1b["]), "");
}

#[test]
fn ansi_state_carries_over() {
    let all = ["\x1b[1mbold", "\x1b[31mred", "x\x1b[0m\x1b[4mu", "plain", "\x1b[7m"];
    for k in 0..=all.len() {
        let state = collect_ansi_state(&all[..k]);
        let mut rest = vec![state.as_str()];
        rest.extend_from_slice(&all[k..]);
        assert_eq!(collect_ansi_state(&rest), collect_ansi_state(&all));
    }
}

#[test]
fn escape_len_ends_at_the_first_final_byte() {
    assert_eq!(escape_len("\x1b[31mred"), 5);
    assert_eq!(escape_len("\x1b[@"), 3);
    assert_eq!(escape_len("\x1b[~x"), 3);
    assert_eq!(escape_len("\x1b[1;2"), 5);
    assert_eq!(escape_len("\x1b["), 2);
    assert_eq!(escape_len("\x1b]0;title"), 1);
    assert_eq!(escape_len("\x1b"), 1);
    assert_eq!(escape_len(""), 1);
    assert_eq!(escape_len("\x1b[\u{e5}m"), 5);
}

#[test]
fn strip_ansi_twice_is_strip_ansi_once() {
    for line in ["\x1b\x1b[[mx", "a\x1b[\x1b[mb", "\x1b]8;;x\x1b\\y", "å\x1b[1må", ""] {
        let once = strip_ansi(line).into_owned();
        assert!(!once.contains('\x1b'));
        assert!(matches!(strip_ansi(&once), Cow::Borrowed(_)));
        assert_eq!(strip_ansi(&once), once);
    }
    assert_eq!(strip_ansi("a\x1b[\x1b[mb"), "amb");
    assert_eq!(strip_ansi("\x1b]8;;x"), "]8;;x");
}

#[test]
fn lines_split_as_in_the_standard_library() {
    let texts = [
        "", "\n", "\r\n", "a", "a\n", "a\r\n", "a\r", "a\n\nb", "\na\r\r\n\nb\r", "å→\n\u{2028}\nz",
        "\r\n\r\n", "a\rb\n",
    ];
    for text in texts {
        assert_eq!(lines(text), text.lines().collect::<Vec<_>>());
    }
    assert_eq!(lines("a\r\nb\n"), vec!["a", "b"]);
}

#[test]
fn white_space_is_the_unicode_property() {
    for code in 0..=0x10ffffu32 {
        if let Some(c) = char::from_u32(code) {
            assert_eq!(white_space(c), c.is_whitespace());
        }
    }
}

#[test]
fn blank_is_all_white_space() {
    for text in ["", " ", "\t\u{3000}\n", " x ", "\u{200b}", "å"] {
        assert_eq!(blank(text), text.trim().is_empty());
    }
    assert!(blank(" \u{a0}"));
    assert!(!blank(" .\n"));
}

#[test]
fn find_gives_the_first_occurrence() {
    assert_eq!(find(b"abcabc", b"bc", 0), Some(1));
    assert_eq!(find(b"abcabc", b"bc", 2), Some(4));
    assert_eq!(find(b"abcabc", b"bc", 5), None);
    assert_eq!(find(b"abc", b"", 3), Some(3));
    assert_eq!(find(b"abc", b"", 4), None);
    assert_eq!(find(b"", b"a", 0), None);
}

#[test]
fn slices_and_equality() {
    assert_eq!(slice("naïve", 2, 4), "ï");
    assert_eq!(slice("abc", 1, 1), "");
    assert!(same_text("naïve", "naïve"));
    assert!(!same_text("naive", "naïve"));
    assert!(!same_text("a", "ab"));
    assert!(!same_text("ab", "ac"));
}

#[test]
fn control_sequences_are_invisible() {
    let plain = ["naïve ", "", "→ ok", "!"];
    let codes = ["\x1b[1m", "\x1b[38;5;12m", "\x1b[2K", "\x1b[m"];
    let text: String = plain.iter().zip(codes).map(|(p, c)| format!("{}{}", p, c)).collect();
    assert_eq!(strip_ansi(&text), plain.concat());
}

#[test]
fn lines_keep_the_text() {
    for text in ["", "a", "a\n", "\n\n", "a\rb\n\nc\r", "å\nb\n"] {
        let end = if text.ends_with('\n') { "\n" } else { "" };
        assert_eq!(format!("{}{}", lines(text).join("\n"), end), text);
    }
}
