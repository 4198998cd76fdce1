use pager::pages::Page;
use pager::screen::{fit, render, render_with_notice, status_line, to_decimal};

fn page(lines: Vec<&str>) -> Page<'_> {
    Page { title: None, lines }
}

#[test]
fn render_basic_output() {
    let mut buf = Vec::new();
    render(&mut buf, &page(vec!["hello", "world"]), 0, 10, 40, 11, 0, 1);
    let output = String::from_utf8(buf).unwrap();
    assert!(output.contains("hello"));
    assert!(output.contains("world"));
    assert!(output.contains("[1/1]"));
}

#[test]
fn render_respects_scroll() {
    let mut buf = Vec::new();
    let p = page(vec!["line0", "line1", "line2", "line3"]);
    render(&mut buf, &p, 2, 10, 40, 11, 0, 1);
    let output = String::from_utf8(buf).unwrap();
    assert!(!output.contains("line0"));
    assert!(!output.contains("line1"));
    assert!(output.contains("line2"));
    assert!(output.contains("line3"));
}

#[test]
fn render_respects_height() {
    let mut buf = Vec::new();
    let p = page(vec!["a", "b", "c", "d", "e"]);
    render(&mut buf, &p, 0, 2, 40, 3, 0, 1);
    let output = String::from_utf8(buf).unwrap();
    assert!(output.contains("a"));
    assert!(output.contains("b"));
    assert!(!output.contains("c"));
}

#[test]
fn render_page_indicator() {
    let mut buf = Vec::new();
    render(&mut buf, &page(vec!["x"]), 0, 10, 40, 11, 2, 5);
    let output = String::from_utf8(buf).unwrap();
    assert!(output.contains("[3/5]"));
}

#[test]
fn render_shows_page_title() {
    let mut buf = Vec::new();
    let p = Page { title: Some("src/main.rs".into()), lines: vec!["x"] };
    render(&mut buf, &p, 0, 10, 40, 11, 0, 3);
    let output = String::from_utf8(buf).unwrap();
    assert!(output.contains("[1/3] src/main.rs"));
}

#[test]
fn render_clips_status_to_width() {
    let mut buf = Vec::new();
    let p = Page { title: Some("a/very/long/path/that/overflows.rs".into()), lines: vec!["x"] };
    render(&mut buf, &p, 0, 10, 20, 11, 0, 3);
    let output = String::from_utf8(buf).unwrap();
    let status = output.rsplit("\x1b[7m").next().unwrap();
    let status = status.strip_suffix("\x1b[0m").unwrap();
    assert_eq!(status.chars().count(), 20);
}

#[test]
fn render_ansi_prefix_on_scroll() {
    let mut buf = Vec::new();
    let p = page(vec!["\x1b[31mred", "still red", "more"]);
    render(&mut buf, &p, 1, 10, 40, 11, 0, 1);
    let output = String::from_utf8(buf).unwrap();
    // scrolled past line 0 which set red — prefix should carry it forward
    assert!(output.contains("\x1b[31m"));
    assert!(output.contains("still red"));
}

#[test]
fn a_frame_byte_for_byte() {
    let mut buf = vec![b'>'];
    let p = Page { title: Some("t".into()), lines: vec!["\x1b[1m", "å", "b", "c"] };
    render(&mut buf, &p, 1, 2, 12, 3, 0, 2);
    assert_eq!(
        String::from_utf8(buf).unwrap(),
        ">\x1b[2J\x1b[1;1H\x1b[1må\x1b[2;1Hb\x1b[0m\x1b[3;1H\x1b[7m [1/2] t    \x1b[0m"
    );
}

#[test]
fn a_frame_below_the_last_line_shows_the_status_only() {
    let mut buf = Vec::new();
    render(&mut buf, &page(vec!["\x1b[1mx"]), 1, 5, 0, 9, 9, 10);
    assert_eq!(String::from_utf8(buf).unwrap(), "\x1b[2J\x1b[0m\x1b[9;1H\x1b[7m\x1b[0m");
}

#[test]
fn a_notice_stands_in_the_status_bar() {
    let mut buf = Vec::new();
    render_with_notice(&mut buf, &page(vec![]), 0, 1, 16, 2, 0, 1, "failed");
    assert!(String::from_utf8(buf).unwrap().ends_with("\x1b[7m [1/1] failed   \x1b[0m"));
    assert_eq!(status_line(1, 12, &Some("a b".into()), None), " [2/12] a b ");
    assert_eq!(status_line(1, 12, &None, Some("n")), " [2/12] n ");
}

#[test]
fn a_notice_goes_before_the_title() {
    assert_eq!(status_line(1, 12, &Some("a b".into()), Some("n")), " [2/12] n a b ");
    let p = Page { title: Some("0123456789".into()), lines: vec![] };
    let bar = |width: u16, notice: Option<&str>| {
        let mut buf = Vec::new();
        match notice {
            Some(text) => render_with_notice(&mut buf, &p, 0, 1, width, 2, 0, 1, text),
            None => render(&mut buf, &p, 0, 1, width, 2, 0, 1),
        }
        let output = String::from_utf8(buf).unwrap();
        let bar = output.rsplit("\x1b[7m").next().unwrap().to_string();
        bar.strip_suffix("\x1b[0m").unwrap().to_string()
    };
    assert_eq!(bar(10, None), " [1/1] 012");
    assert_eq!(bar(10, Some("failed")), " [1/1] fai");
    assert_eq!(bar(16, Some("failed")), " [1/1] failed 01");
    assert_eq!(bar(4, Some("failed")), " [1/");
}

#[test]
fn decimals() {
    for n in [0, 7, 10, 99, 100, 65535, usize::MAX] {
        assert_eq!(to_decimal(n), format!("{}", n));
    }
    assert_eq!(to_decimal(9087), "9087");
}

#[test]
fn fitting_clips_and_pads() {
    assert_eq!(fit("naïve", 3), "naï");
    assert_eq!(fit("naïve", 5), "naïve");
    assert_eq!(fit("ï", 3), "ï  ");
    assert_eq!(fit("", 2), "  ");
    assert_eq!(fit("x", 0), "");
}
