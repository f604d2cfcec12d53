use nx_core::pump::{process_chunk, shell_command_parts, strip_dsr};
use nx_core::screen::{PseudoTerminalOptions, ScreenModel};
use nx_core::strkit::join_pipe;

#[test]
fn resize_clamps_and_keeps_raw_output() {
    let mut m = ScreenModel::new(10, 80);
    let mut fed: Vec<u8> = Vec::new();
    for i in 0..10 {
        let line = format!("line{}\r\n", i);
        fed.extend_from_slice(line.as_bytes());
        m.process(line.as_bytes());
    }
    let before = m.get_raw_output();
    assert_eq!(before, fed);
    m.resize(5, 20);
    let screen = m.get_screen().unwrap();
    assert_eq!(screen.size(), (5, 20));
    assert_eq!(m.get_raw_output(), before);
    m.resize(1, 1);
    let screen = m.get_screen().unwrap();
    assert_eq!(screen.size(), (3, 20));
}

#[test]
fn resize_keeps_cursor_at_the_bottom() {
    let mut m = ScreenModel::new(10, 80);
    for i in 0..10 {
        let line = format!("line{}\r\n", i);
        m.process(line.as_bytes());
    }
    m.resize(5, 20);
    let (row, _col) = m.cursor_position();
    assert_eq!(row, 5 - 1);
    // Ten lines printed on ten rows leave the cursor on the last row;
    // dropping to five rows advances the view by the lost rows less one.
    assert_eq!(m.get_scroll_offset(), (10 - 5) - 1);
}

#[test]
fn chunked_and_whole_replay_show_the_same_contents() {
    let mut chunked = ScreenModel::new(6, 40);
    chunked.process(b"hel");
    chunked.process(b"lo\r\nwor");
    chunked.process(b"ld\r\n");
    let mut whole = ScreenModel::new(6, 40);
    whole.process(b"hello\r\nworld\r\n");
    assert_eq!(chunked.contents(), whole.contents());
    assert_eq!(chunked.get_raw_output(), whole.get_raw_output());
    assert!(chunked.contents().contains("hello"));
    assert!(chunked.contents().contains("world"));
}

#[test]
fn scrolling_moves_within_the_scrollback() {
    let mut m = ScreenModel::new(4, 40);
    for i in 0..12 {
        let line = format!("row{}\r\n", i);
        m.process(line.as_bytes());
    }
    assert_eq!(m.get_scroll_offset(), 0);
    m.scroll_up();
    m.scroll_up();
    assert_eq!(m.get_scroll_offset(), 2);
    m.scroll_down();
    assert_eq!(m.get_scroll_offset(), 1);
    m.scroll_down();
    m.scroll_down();
    assert_eq!(m.get_scroll_offset(), 0);
    let total = m.get_total_content_rows();
    assert!(total > 4);
}

#[test]
fn strip_dsr_removes_the_report_request() {
    assert_eq!(strip_dsr("ab\u{1b}[6ncd"), "abcd");
    assert_eq!(strip_dsr("\u{1b}[6n\u{1b}[6n"), "");
    assert_eq!(strip_dsr("plain"), "plain");
    assert_eq!(strip_dsr("\u{1b}[7n"), "\u{1b}[7n");
}

#[test]
fn process_chunk_frames_and_strips() {
    let out = process_chunk(b"ab\x1b[6ncd", false);
    assert_eq!(out.frame, "ab\u{1b}[6ncd");
    assert_eq!(out.stdout_text.as_deref(), Some("abcd"));
    let quiet = process_chunk(b"hello", true);
    assert_eq!(quiet.frame, "hello");
    assert!(quiet.stdout_text.is_none());
}

#[test]
fn shell_parts_follow_the_platform() {
    let (shell, flag) = shell_command_parts(false, None);
    assert_eq!(shell, "sh");
    assert_eq!(flag, "-c");
    let (shell, flag) = shell_command_parts(true, None);
    assert_eq!(shell, "cmd.exe");
    assert_eq!(flag, "/C");
    let (shell, flag) = shell_command_parts(true, Some("powershell.exe".to_owned()));
    assert_eq!(shell, "powershell.exe");
    assert_eq!(flag, "/C");
}

#[test]
fn exec_argv_joins_with_pipes() {
    assert_eq!(join_pipe(&vec![]), "");
    assert_eq!(join_pipe(&vec!["a".to_owned()]), "a");
    assert_eq!(
        join_pipe(&vec!["--inspect".to_owned(), "--max-old-space-size=4096".to_owned()]),
        "--inspect|--max-old-space-size=4096"
    );
}

#[test]
fn options_carry_the_terminal_size() {
    let o = PseudoTerminalOptions::from_size(80, 24);
    assert_eq!(o.cols, 80);
    assert_eq!(o.rows, 24);
    assert!(o.writable);
}
