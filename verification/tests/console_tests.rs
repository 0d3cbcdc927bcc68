use sillos::console::Console;

#[test]
fn console_initializes_cursor_and_input_state() {
    let console = Console::new(800, 480);
    assert!(console.cursor_x == 0, "cursor_x is not initialized to zero");
    assert!(console.cursor_y == 0, "cursor_y is not initialized to zero");
    assert!(console.columns == 100, "console column count is incorrect");
    assert!(console.rows == 30, "console row count is incorrect");
    assert!(console.input_len == 0, "input buffer is not empty");
    assert!(!console.line_ready, "line_ready is initially set");
}

#[test]
fn console_writes_characters() {
    let mut console = Console::new(80, 32);
    console.write_str("abc");
    assert!(console.cursor_x == 3, "writing characters does not advance cursor");
    assert!(console.cursor_y == 0, "writing characters changed cursor row");
}

#[test]
fn console_newline_moves_to_next_row() {
    let mut console = Console::new(80, 32);
    console.write_str("abc\ndef");
    assert!(console.cursor_x == 3, "cursor column after newline is incorrect");
    assert!(console.cursor_y == 1, "newline did not advance row");
}

#[test]
fn console_carriage_return_resets_column() {
    let mut console = Console::new(80, 32);
    console.write_str("abcdef\rxy");
    assert!(console.cursor_x == 2, "carriage return did not reset column");
    assert!(console.cursor_y == 0, "carriage return changed cursor row");
}

#[test]
fn console_tab_advances_to_next_tab_stop() {
    let mut console = Console::new(80, 32);
    console.write_str("a\t");
    assert!(console.cursor_x == 4, "tab did not advance to next tab stop");
    console.write_str("b\t");
    assert!(console.cursor_x == 8, "second tab did not advance correctly");
}

#[test]
fn console_backspace_moves_cursor_back() {
    let mut console = Console::new(80, 32);
    console.write_str("abc");
    console.write_str("\u{8}");
    assert!(console.cursor_x == 2, "backspace did not move cursor backwards");
}

#[test]
fn console_backspace_at_origin_is_safe() {
    let mut console = Console::new(80, 32);
    console.write_str("\u{8}");
    assert!(
        console.cursor_x == 0 && console.cursor_y == 0,
        "backspace at origin moved the cursor"
    );
}

#[test]
fn console_wraps_at_right_edge() {
    let mut console = Console::new(16, 32);
    console.write_str("ab");
    assert!(console.cursor_x == 0, "console did not wrap at right edge");
    assert!(console.cursor_y == 1, "console did not advance row after wrapping");
}

#[test]
fn console_read_line_returns_none_until_line_is_ready() {
    let mut console = Console::new(80, 32);
    let mut buffer = [0u8; 16];
    assert!(console.read_line(&mut buffer).is_none(), "read_line returned a line before Enter");
}

#[test]
fn console_read_line_copies_and_consumes_line() {
    let mut console = Console::new(80, 32);
    console.input[..5].copy_from_slice(b"hello");
    console.input_len = 5;
    console.line_ready = true;
    let mut buffer = [0u8; 16];
    let length = console.read_line(&mut buffer).expect("read_line did not return ready line");
    assert!(length == 5, "read_line returned incorrect length");
    assert!(&buffer[..5] == b"hello", "read_line returned incorrect contents");
    assert!(console.input_len == 0, "read_line did not consume input");
    assert!(!console.line_ready, "read_line did not clear line_ready");
}

#[test]
fn console_read_line_truncates_to_destination() {
    let mut console = Console::new(80, 32);
    console.input[..6].copy_from_slice(b"abcdef");
    console.input_len = 6;
    console.line_ready = true;
    let mut buffer = [0u8; 3];
    let length = console.read_line(&mut buffer).expect("read_line did not return ready line");
    assert!(length == 3, "read_line did not truncate to buffer size");
    assert!(&buffer == b"abc", "truncated line has incorrect contents");
    assert!(
        console.input_len == 0 && !console.line_ready,
        "truncated read did not consume line"
    );
}
