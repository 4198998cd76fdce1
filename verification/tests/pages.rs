use pager::options::{delimiter_of, group_source, load_pages, DIFFT_HEADER};
use pager::pages::{chunk_ranges, merge_sections, pages_from, sections, split_pages, Page, Section};
use pager::pattern::{chunk_key, group_key, line_key, Pattern};

fn page_lines<'a>(input: &'a str, delimiter: &str) -> Vec<Vec<&'a str>> {
    split_pages(input, delimiter, None)
        .into_iter()
        .map(|p| p.lines)
        .collect()
}

fn difft_pages(input: &str) -> Vec<Page<'_>> {
    split_pages(input, "\n\n", Some(&Pattern::new(DIFFT_HEADER).unwrap()))
}

fn compiled(source: &str) -> Pattern {
    match Pattern::new(source) {
        Ok(p) => p,
        Err(e) => panic!("{}", e.message),
    }
}

#[test]
fn split_pages_default_delimiter() {
    let input = "page one\n\npage two\n\npage three";
    let pages = page_lines(input, "\n\n");
    assert_eq!(pages.len(), 3);
    assert_eq!(pages[0], vec!["page one"]);
    assert_eq!(pages[1], vec!["page two"]);
    assert_eq!(pages[2], vec!["page three"]);
}

#[test]
fn split_pages_multiline_page() {
    let input = "line1\nline2\n\nline3\nline4\nline5";
    let pages = page_lines(input, "\n\n");
    assert_eq!(pages.len(), 2);
    assert_eq!(pages[0], vec!["line1", "line2"]);
    assert_eq!(pages[1], vec!["line3", "line4", "line5"]);
}

#[test]
fn split_pages_custom_delimiter() {
    let input = "aaa---bbb---ccc";
    let pages = page_lines(input, "---");
    assert_eq!(pages.len(), 3);
    assert_eq!(pages[0], vec!["aaa"]);
}

#[test]
fn split_pages_filters_empty() {
    let input = "\n\n\n\nactual content\n\n\n\n";
    let pages = page_lines(input, "\n\n");
    assert_eq!(pages.len(), 1);
    assert_eq!(pages[0], vec!["actual content"]);
}

#[test]
fn split_pages_empty_input() {
    assert!(page_lines("", "\n\n").is_empty());
}

#[test]
fn split_pages_only_whitespace() {
    assert!(page_lines("   \n\n   \n\n   ", "\n\n").is_empty());
}

#[test]
fn split_pages_empty_delimiter_is_one_page() {
    let pages = page_lines("a\nb", "");
    assert_eq!(pages.len(), 1);
    assert_eq!(pages[0], vec!["a", "b"]);
}

#[test]
fn group_by_merges_consecutive_hunks_of_one_file() {
    let input = "a.rs --- 1/2 --- Rust\nfirst\n\na.rs --- 2/2 --- Rust\nsecond\n\nb.rs --- Rust\nthird";
    let pages = difft_pages(input);
    assert_eq!(pages.len(), 2);
    assert_eq!(pages[0].title.as_deref(), Some("a.rs"));
    assert_eq!(
        pages[0].lines,
        vec!["a.rs --- 1/2 --- Rust", "first", "", "a.rs --- 2/2 --- Rust", "second"]
    );
    assert_eq!(pages[1].title.as_deref(), Some("b.rs"));
    assert_eq!(pages[1].lines, vec!["b.rs --- Rust", "third"]);
}

#[test]
fn group_by_separates_interleaved_files() {
    let input = "a.rs --- Rust\none\n\nb.rs --- Rust\ntwo\n\na.rs --- Rust\nthree";
    let titles: Vec<_> = difft_pages(input)
        .iter()
        .map(|p| p.title.clone().unwrap())
        .collect();
    assert_eq!(titles, vec!["a.rs", "b.rs", "a.rs"]);
}

#[test]
fn group_by_ignores_ansi_in_the_header() {
    let input = "\x1b[1m\x1b[93ma.rs\x1b[39m\x1b[0m\x1b[2m --- 1/2 --- Rust\x1b[0m\nfirst\n\n\x1b[1m\x1b[93ma.rs\x1b[39m\x1b[0m\x1b[2m --- 2/2 --- Rust\x1b[0m\nsecond";
    let pages = difft_pages(input);
    assert_eq!(pages.len(), 1);
    assert_eq!(pages[0].title.as_deref(), Some("a.rs"));
}

#[test]
fn group_by_puts_unmatched_chunks_on_their_own_page() {
    let input = "a.rs --- Rust\nfirst\n\nstray line\n\nb.rs --- Rust\nsecond";
    let pages = difft_pages(input);
    assert_eq!(pages.len(), 3);
    assert_eq!(pages[0].title.as_deref(), Some("a.rs"));
    assert_eq!(pages[1].title, None);
    assert!(pages[1].lines.contains(&"stray line"));
    assert_eq!(pages[2].title.as_deref(), Some("b.rs"));
}

#[test]
fn group_by_merges_a_run_of_unmatched_chunks() {
    // a commit message ahead of its file diffs stays on one page
    let input = "commit abc123\nAuthor: someone\n\n    subject line\n\na.rs --- Rust\nfirst";
    let pages = difft_pages(input);
    assert_eq!(pages.len(), 2);
    assert_eq!(pages[0].title, None);
    assert_eq!(
        pages[0].lines,
        vec!["commit abc123", "Author: someone", "", "    subject line"]
    );
    assert_eq!(pages[1].title.as_deref(), Some("a.rs"));
}

#[test]
fn group_by_keeps_a_leading_preamble_as_its_own_page() {
    let input = "commit abc123\nAuthor: someone\n\na.rs --- Rust\nfirst";
    let pages = difft_pages(input);
    assert_eq!(pages.len(), 2);
    assert_eq!(pages[0].title, None);
    assert_eq!(pages[0].lines, vec!["commit abc123", "Author: someone"]);
}

#[test]
fn group_by_only_reads_the_first_line_of_a_chunk() {
    // a content line containing " --- " must not start a new page
    let input = "a.rs --- Rust\n 1  1 let x = \"a --- b\";\n\na.rs --- Rust\nmore";
    let pages = difft_pages(input);
    assert_eq!(pages.len(), 1);
    assert_eq!(pages[0].title.as_deref(), Some("a.rs"));
}

#[test]
fn group_by_without_capture_group_uses_whole_match() {
    let re = Pattern::new(r"^== \w+").unwrap();
    let input = "== alpha\none\n\n== alpha\ntwo\n\n== beta\nthree";
    let pages = split_pages(input, "\n\n", Some(&re));
    assert_eq!(pages.len(), 2);
    assert_eq!(pages[0].title.as_deref(), Some("== alpha"));
    assert_eq!(pages[1].title.as_deref(), Some("== beta"));
}

#[test]
fn difft_header_captures_path_with_spaces() {
    let re = Pattern::new(DIFFT_HEADER).unwrap();
    let key = chunk_key("my dir/some file.rs --- 1/3 --- Rust", &re);
    assert_eq!(key.as_deref(), Some("my dir/some file.rs"));
}

#[test]
fn chunk_ranges_are_byte_ranges() {
    assert_eq!(chunk_ranges("naïve→ok", "→"), vec![(0, 6), (9, 11)]);
    assert_eq!(chunk_ranges("aaa", "aa"), vec![(0, 0), (2, 3)]);
    assert_eq!(chunk_ranges("", "x"), vec![(0, 0)]);
    assert_eq!(chunk_ranges("xx", "x"), vec![(0, 0), (1, 1), (2, 2)]);
    assert_eq!(chunk_ranges("abc", ""), vec![(0, 3)]);
    assert_eq!(chunk_ranges("ab", "abc"), vec![(0, 2)]);
}

#[test]
fn joined_chunks_are_the_input() {
    let input = "\n\nå\n\n\nb\r\n\n\n";
    for delimiter in ["\n\n", "\n", "å", "b\r", "zzz"] {
        let parts: Vec<&str> = chunk_ranges(input, delimiter)
            .into_iter()
            .map(|(start, end)| &input[start..end])
            .collect();
        assert_eq!(parts.join(delimiter), input);
        assert_eq!(parts, input.split(delimiter).collect::<Vec<_>>());
    }
}

#[test]
fn a_merged_page_reaches_over_a_blank_chunk() {
    let input = "k 1\n\n  \n\nk 2\n\nm 1";
    let re = compiled("^[a-z]");
    let pages = split_pages(input, "\n\n", Some(&re));
    assert_eq!(pages.len(), 2);
    assert_eq!(pages[0].title.as_deref(), Some("k"));
    assert_eq!(pages[0].lines, vec!["k 1", "", "  ", "", "k 2"]);
    assert_eq!(pages[1].lines, vec!["m 1"]);
}

#[test]
fn sections_carry_title_and_range() {
    let re = compiled("^(\\w) ");
    let found = sections("a 1|b 2||?", "|", Some(&re));
    let seen: Vec<(Option<&str>, usize, usize)> =
        found.iter().map(|s| (s.title.as_deref(), s.start, s.end)).collect();
    assert_eq!(seen, vec![(Some("a"), 0, 3), (Some("b"), 4, 7), (None, 9, 10)]);
}

#[test]
fn merging_joins_neighbours_only() {
    let section = |title: Option<&str>, start: usize, end: usize| Section {
        title: title.map(String::from),
        start,
        end,
    };
    let merged = merge_sections(vec![
        section(None, 0, 1),
        section(None, 2, 3),
        section(Some("a"), 4, 5),
        section(Some("b"), 6, 7),
        section(Some("b"), 8, 9),
        section(Some("a"), 10, 11),
    ]);
    let seen: Vec<(Option<&str>, usize, usize)> =
        merged.iter().map(|s| (s.title.as_deref(), s.start, s.end)).collect();
    assert_eq!(
        seen,
        vec![(None, 0, 3), (Some("a"), 4, 5), (Some("b"), 6, 9), (Some("a"), 10, 11)]
    );
    let pages = pages_from("0 2 a b b a?", merged);
    assert_eq!(pages[2].title.as_deref(), Some("b"));
    assert_eq!(pages[2].lines, vec!["b b"]);
}

#[test]
fn key_is_group_one_or_the_whole_match() {
    let some = |s: &str| Some(s.to_string());
    assert_eq!(group_key(None), None);
    assert_eq!(group_key(Some(vec![some("whole")])), some("whole"));
    assert_eq!(group_key(Some(vec![some("whole"), some("one")])), some("one"));
    assert_eq!(group_key(Some(vec![some("whole"), None, some("two")])), some("whole"));
    assert_eq!(group_key(Some(vec![])), None);
    let re = compiled("x(?:(a)|b)");
    assert_eq!(line_key("..xa", &re).as_deref(), Some("a"));
    assert_eq!(line_key("..xb", &re).as_deref(), Some("xb"));
    assert_eq!(line_key("..xc", &re), None);
}

#[test]
fn key_skips_blank_lines() {
    let re = compiled("^.+$");
    assert_eq!(chunk_key(" \t\n\r\nfirst\nsecond", &re).as_deref(), Some("first"));
    assert_eq!(chunk_key("\n \n", &re), None);
    assert_eq!(chunk_key("", &re), None);
}

#[test]
fn key_depends_on_the_first_line_only() {
    let re = compiled(DIFFT_HEADER);
    assert_eq!(
        chunk_key("\na --- b\nc --- d", &re),
        chunk_key("a --- b\nx --- y --- z\n\n", &re)
    );
}

#[test]
fn key_ignores_escapes() {
    let re = compiled(DIFFT_HEADER);
    assert_eq!(line_key("\x1b[1ma\x1b[0m.rs\x1b --- x", &re).as_deref(), Some("a.rs"));
}

#[test]
fn a_bad_pattern_is_refused_with_a_message() {
    match Pattern::new("(") {
        Ok(_) => panic!("an unclosed group compiled"),
        Err(e) => assert!(e.message.contains("unclosed group")),
    }
}

#[test]
fn options_choose_the_pattern() {
    assert_eq!(group_source(true, None), Some("^(.*?) --- "));
    assert_eq!(group_source(true, Some("x")), Some(DIFFT_HEADER));
    assert_eq!(group_source(false, Some("x")), Some("x"));
    assert_eq!(group_source(false, None), None);
}

#[test]
fn loading_splits_as_asked() {
    let input = "a.rs --- 1/2\n\na.rs --- 2/2\n\nb.rs --- x";
    assert_eq!(load_pages(input, "\n\n", false, None).unwrap().len(), 3);
    let short = load_pages(input, "\n\n", true, None).unwrap();
    let long = load_pages(input, "\n\n", false, Some(DIFFT_HEADER)).unwrap();
    assert_eq!(short.len(), 2);
    assert_eq!(long.len(), 2);
    for (s, l) in short.iter().zip(long.iter()) {
        assert_eq!(s.title, l.title);
        assert_eq!(s.lines, l.lines);
    }
    assert!(load_pages(input, "\n\n", false, Some("(")).is_err());
    assert!(load_pages("", "\n\n", false, Some("(")).unwrap().is_empty());
    assert!(load_pages(" \n", "\n\n", false, None).unwrap().is_empty());
}

/// The lines of all pages that are not blank, one page after the other.
fn shown_lines<'a>(input: &'a str, delimiter: &str, re: Option<&Pattern>) -> Vec<&'a str> {
    split_pages(input, delimiter, re)
        .into_iter()
        .flat_map(|page| page.lines)
        .filter(|line| !line.trim().is_empty())
        .collect()
}

#[test]
fn no_line_is_dropped() {
    let texts = [
        "",
        " \n\n\t\n",
        "a\nb\n\nc\n\n\n\nd\n",
        "\n\n\n  a\n \n\n\u{3000}\n\na å\n\n b",
        "k 1\n\n  \n\nk 2\nx\n\n\nm 1\n\n",
        "a\rb\n\nc\r",
    ];
    let re = compiled("^[a-z]");
    for text in texts {
        let expected: Vec<&str> = text.lines().filter(|l| !l.trim().is_empty()).collect();
        for delimiter in ["\n\n", "\n", "\n\n\n", "\n \n", ""] {
            assert_eq!(shown_lines(text, delimiter, None), expected);
            assert_eq!(shown_lines(text, delimiter, Some(&re)), expected);
        }
    }
}

#[test]
fn a_carriage_return_before_the_delimiter_stays_on_its_line() {
    assert_eq!(shown_lines("a\r\n\nb", "\n\n", None), vec!["a\r", "b"]);
}

#[test]
fn no_key_exactly_without_a_match() {
    let re = compiled("(x)?a");
    assert_eq!(chunk_key(" \nba", &re).as_deref(), Some("a"));
    assert_eq!(chunk_key("b\na", &re), None);
    assert_eq!(chunk_key(" \n", &re), None);
    let empty = compiled("");
    assert_eq!(line_key("b", &empty).as_deref(), Some(""));
    let pages = split_pages("b\n\na\n\nc", "\n\n", Some(&re));
    let titles: Vec<Option<&str>> = pages.iter().map(|p| p.title.as_deref()).collect();
    assert_eq!(titles, vec![None, Some("a"), None]);
}

#[test]
fn written_newlines_are_read() {
    assert_eq!(delimiter_of(r"\n\n"), "\n\n");
    assert_eq!(delimiter_of("\n\n"), "\n\n");
    assert_eq!(delimiter_of("---"), "---");
    assert_eq!(delimiter_of(r"å\n\t\"), "å\n\\t\\");
    assert_eq!(delimiter_of(r"\\n"), "\\\n");
    assert_eq!(delimiter_of(r"n\"), r"n\");
    assert_eq!(delimiter_of(""), "");
}

#[test]
fn a_delimiter_can_be_written_with_escapes() {
    let hunks = "a.rs --- 1/2 --- Rust\nx\n\na.rs --- 2/2 --- Rust\ny";
    for written in [r"\n\n", "\n\n"] {
        let pages = load_pages(hunks, written, false, None).unwrap();
        assert_eq!(pages.len(), 2);
        assert_eq!(pages[1].lines, vec!["a.rs --- 2/2 --- Rust", "y"]);
        assert_eq!(load_pages(hunks, written, true, None).unwrap().len(), 1);
    }
}
