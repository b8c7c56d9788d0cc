use lsp_diff::text::{
    byte_to_line, byte_to_position, count_line_breaks, last_line_length, line_count,
    line_starts, line_to_byte, position_in, pre_char_boundary, split_lines, str_eq, substr,
    Position,
};

#[test]
fn counts_every_terminator_once() {
    assert_eq!(count_line_breaks(""), 0);
    assert_eq!(count_line_breaks("abc"), 0);
    assert_eq!(count_line_breaks("a\n"), 1);
    assert_eq!(count_line_breaks("a\r\nb"), 1);
    assert_eq!(count_line_breaks("a\rb"), 1);
    assert_eq!(count_line_breaks("a\r"), 1);
    assert_eq!(count_line_breaks("a\n\rb"), 2);
    assert_eq!(count_line_breaks("a\r\r\nb"), 2);
    assert_eq!(count_line_breaks("a\u{85}b\u{2028}c\u{2029}d"), 3);
    assert_eq!(count_line_breaks("a\u{0B}b\u{0C}c"), 0);
    assert_eq!(count_line_breaks("\n\n\n"), 3);
}

#[test]
fn line_count_is_breaks_plus_one() {
    assert_eq!(line_count(""), 1);
    assert_eq!(line_count("a"), 1);
    assert_eq!(line_count("a\n"), 2);
    assert_eq!(line_count("a\r\nb\r\n"), 3);
}

#[test]
fn line_to_byte_finds_line_starts() {
    let text = "ab\ncd\r\nef";
    assert_eq!(line_to_byte(text, 0), 0);
    assert_eq!(line_to_byte(text, 1), 3);
    assert_eq!(line_to_byte(text, 2), 7);
    assert_eq!(line_to_byte(text, 3), 9);
    assert_eq!(line_to_byte(text, 4), 9);
    assert_eq!(line_to_byte("a\n", 1), 2);
    assert_eq!(line_to_byte("a\n", line_count("a\n")), 2);
    assert_eq!(line_to_byte("", 0), 0);
    assert_eq!(line_to_byte("", 5), 0);
}

#[test]
fn byte_to_position_gives_line_and_column() {
    let text = "ab\ncd\r\nef";
    assert_eq!(byte_to_position(text, 0), Position { line: 0, character: 0 });
    assert_eq!(byte_to_position(text, 2), Position { line: 0, character: 2 });
    assert_eq!(byte_to_position(text, 3), Position { line: 1, character: 0 });
    assert_eq!(byte_to_position(text, 5), Position { line: 1, character: 2 });
    assert_eq!(byte_to_position(text, 6), Position { line: 1, character: 3 });
    assert_eq!(byte_to_position(text, 7), Position { line: 2, character: 0 });
    assert_eq!(byte_to_position(text, 9), Position { line: 2, character: 2 });
    assert_eq!(byte_to_line(text, 6), 1);
    assert_eq!(byte_to_line(text, 9), 2);
    assert_eq!(byte_to_position("a\n", 2), Position { line: 1, character: 0 });
}

#[test]
fn byte_to_position_rounds_down_inside_a_character() {
    let text = "a😀b";
    assert_eq!(byte_to_position(text, 1), Position { line: 0, character: 1 });
    assert_eq!(byte_to_position(text, 2), Position { line: 0, character: 1 });
    assert_eq!(byte_to_position(text, 4), Position { line: 0, character: 1 });
    assert_eq!(byte_to_position(text, 5), Position { line: 0, character: 5 });
}

#[test]
fn pre_char_boundary_snaps_down() {
    let text = "a😀b";
    assert_eq!(pre_char_boundary(text, 0), 0);
    assert_eq!(pre_char_boundary(text, 1), 1);
    assert_eq!(pre_char_boundary(text, 2), 1);
    assert_eq!(pre_char_boundary(text, 3), 1);
    assert_eq!(pre_char_boundary(text, 4), 1);
    assert_eq!(pre_char_boundary(text, 5), 5);
    assert_eq!(pre_char_boundary(text, 6), 6);
    assert_eq!(pre_char_boundary(text, 9), 6);
    assert_eq!(pre_char_boundary("é", 1), 0);
}

#[test]
fn last_line_is_what_follows_the_last_break() {
    assert_eq!(last_line_length(""), 0);
    assert_eq!(last_line_length("abc"), 3);
    assert_eq!(last_line_length("\nfo"), 2);
    assert_eq!(last_line_length("lol\n"), 0);
    assert_eq!(last_line_length("a\r\nbcd"), 3);
}

#[test]
fn lines_keep_their_terminators() {
    assert_eq!(split_lines("a\nb\r\nc"), vec!["a\n", "b\r\n", "c"]);
    assert_eq!(split_lines("a\n"), vec!["a\n", ""]);
    assert_eq!(split_lines(""), vec![""]);
    assert_eq!(split_lines("x\u{2028}y\u{85}"), vec!["x\u{2028}", "y\u{85}", ""]);
    assert_eq!(line_starts("a\nb\r\nc"), vec![0, 2, 5, 6]);
    assert_eq!(line_starts(""), vec![0, 0]);
}

#[test]
fn substr_and_str_eq() {
    assert_eq!(substr("hello", 1, 3), "el");
    assert_eq!(substr("a😀b", 1, 5), "😀");
    assert_eq!(substr("abc", 2, 2), "");
    assert!(str_eq("abc", "abc"));
    assert!(!str_eq("abc", "abd"));
    assert!(!str_eq("abc", "ab"));
    assert!(str_eq("", ""));
}

#[test]
fn the_line_table_gives_the_same_positions() {
    let texts =
        ["", "abc", "ab\ncd\r\nef", "a\n", "\n\n\n", "a😀\nb\u{2028}c\u{85}", "x\ry\r\nz\r"];
    for text in texts {
        let starts = line_starts(text);
        for byte in 0..=text.len() {
            assert_eq!(position_in(text, &starts, byte), byte_to_position(text, byte));
        }
    }
    let text = "ab\ncd\r\nef";
    let starts = line_starts(text);
    assert_eq!(position_in(text, &starts, 6), Position { line: 1, character: 3 });
    assert_eq!(position_in(text, &starts, 7), Position { line: 2, character: 0 });
}
