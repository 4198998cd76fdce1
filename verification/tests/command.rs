use pager::pty::{
    check_cmd_status, command_output, take_read, unix_newlines, window_size, ReadNext, ReadOutcome,
};

#[test]
fn check_cmd_status_success() {
    assert!(check_cmd_status(true, "exit status: 0", "echo hi").is_ok());
}

#[test]
fn check_cmd_status_failure() {
    let err = check_cmd_status(false, "exit status: 1", "false").unwrap_err();
    assert!(err.message.contains("false"));
    assert!(err.message.contains("exit"));
    assert_eq!(err.message, "command 'false' exited with exit status: 1");
}

#[test]
fn window_sizes() {
    let size = |s| {
        let w = window_size(s);
        (w.rows, w.cols)
    };
    assert_eq!(size(None), (23, 80));
    assert_eq!(size(Some((120, 40))), (39, 120));
    assert_eq!(size(Some((0, 0))), (1, 1));
    assert_eq!(size(Some((5, 1))), (1, 5));
}

#[test]
fn reads_are_collected() {
    let mut out = vec![1u8];
    let buf = [7u8, 8, 9];
    assert_eq!(take_read(&mut out, &buf, ReadOutcome::Bytes(2)), ReadNext::More);
    assert_eq!(out, vec![1, 7, 8]);
    assert_eq!(take_read(&mut out, &buf, ReadOutcome::Bytes(0)), ReadNext::Done);
    assert_eq!(take_read(&mut out, &buf, ReadOutcome::HungUp), ReadNext::Done);
    assert_eq!(take_read(&mut out, &buf, ReadOutcome::Failed), ReadNext::Fail);
    assert_eq!(out, vec![1, 7, 8]);
}

#[test]
fn output_is_decoded_and_unixed() {
    let text = command_output(true, "", "c", b"a\r\n\xff\r\r\nb\r").unwrap();
    assert_eq!(text, "a\n\u{fffd}\r\nb\r");
    let err = command_output(false, "signal: 9 (SIGKILL)", "c", b"a").unwrap_err();
    assert_eq!(err.message, "command 'c' exited with signal: 9 (SIGKILL)");
}

#[test]
fn terminal_newlines_are_undone() {
    for text in ["", "\n", "a\nb\n", "\r\n", "å\r\r\n\n\r"] {
        assert_eq!(unix_newlines(&text.replace('\n', "\r\n")), text);
        assert_eq!(unix_newlines(text), text.replace("\r\n", "\n"));
    }
    assert_eq!(unix_newlines("a\r\nb\rc\n"), "a\nb\rc\n");
}
