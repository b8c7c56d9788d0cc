use lsp_diff::chars_diff::{Incremental, RopeSlice};
use lsp_diff::event::{Changes, LspPosition, LspRange};
use lsp_diff::rope_diff::Full;
use lsp_diff::script::EditOp;
use lsp_diff::text::{line_to_byte, Position};

fn range(sl: u64, sc: u64, el: u64, ec: u64) -> Option<LspRange> {
    Some(LspRange {
        start: LspPosition { line: sl, character: sc },
        end: LspPosition { line: el, character: ec },
    })
}

fn at_origin(text: &str) -> RopeSlice<'_> {
    RopeSlice { slice: text, absolute_pos: Position { line: 0, character: 0 } }
}

fn show(changes: &Changes) -> Vec<(Option<LspRange>, Option<u64>, String)> {
    let mut out = Vec::new();
    for i in 0..changes.len() {
        let e = changes.get(i);
        out.push((e.range, e.range_length, e.text.clone()));
    }
    out
}

#[test]
fn single_character_insert_on_one_line() {
    let changes = Incremental::diff(at_origin("foobarbazz"), "foobaXrbazz");
    assert_eq!(show(&changes), vec![(range(0, 5, 0, 5), Some(0), "X".to_string())]);
}

/// Applies the events one after the other, each to the text that the
/// events before it have left.
fn apply_in_order(text: &str, changes: &Changes) -> String {
    let mut doc = text.to_string();
    for i in 0..changes.len() {
        let e = changes.get(i);
        let r = e.range.unwrap();
        let from = line_to_byte(&doc, r.start.line as usize) + r.start.character as usize;
        let to = line_to_byte(&doc, r.end.line as usize) + r.end.character as usize;
        doc.replace_range(from..to, &e.text);
    }
    doc
}

#[test]
fn cross_line_deletion() {
    let old = "foo\nbar\nbuzz";
    let new = "foo\nbaz";
    let one_deletion = vec![EditOp::Delete { old: 6, len: 5 }];
    let changes = Incremental::diff_with_script(at_origin(old), new, one_deletion);
    assert_eq!(show(&changes), vec![(range(1, 2, 2, 3), None, String::new())]);
    assert_eq!(apply_in_order(old, &changes), new);

    let changes = Incremental::diff(at_origin(old), new);
    let after = apply_in_order(old, &changes);
    assert_eq!(after, new);
    assert_eq!(after.len(), 7);
}

#[test]
fn insertion_introducing_a_newline() {
    let changes = Incremental::diff(at_origin("foobarbazz"), "foo\nfobarbazz");
    assert_eq!(show(&changes), vec![(range(0, 3, 0, 3), Some(0), "\nfo".to_string())]);
}

#[test]
fn line_level_replacement() {
    let changes = Full::diff("alpha\nbeta\ngamma\n", "alpha\nBETA\ngamma\n");
    assert_eq!(show(&changes), vec![(range(1, 0, 2, 0), None, "BETA\n".to_string())]);
}

#[test]
fn pure_append_of_lines() {
    let changes = Full::diff("a\nb\n", "a\nb\nc\nd\n");
    assert_eq!(show(&changes), vec![(range(2, 0, 2, 0), Some(0), "c\nd\n".to_string())]);
}

#[test]
fn delete_trailing_lines() {
    let changes = Full::diff("a\nb\nc\n", "a\n");
    assert_eq!(show(&changes), vec![(range(1, 0, 3, 0), None, String::new())]);
}

#[test]
fn insertion_at_document_start() {
    let changes = Incremental::diff(at_origin("bar"), "Xbar");
    assert_eq!(show(&changes), vec![(range(0, 0, 0, 0), Some(0), "X".to_string())]);
    let changes = Full::diff("b\n", "a\nb\n");
    assert_eq!(show(&changes), vec![(range(0, 0, 0, 0), Some(0), "a\n".to_string())]);
}

#[test]
fn insertion_at_document_end() {
    let changes = Incremental::diff(at_origin("a\nfoo"), "a\nfoobar");
    assert_eq!(show(&changes), vec![(range(1, 3, 1, 3), Some(0), "bar".to_string())]);
}

#[test]
fn deletion_of_one_whole_line() {
    let changes = Full::diff("a\nb\nc\n", "a\nc\n");
    assert_eq!(show(&changes), vec![(range(1, 0, 2, 0), None, String::new())]);
}

#[test]
fn identical_texts_give_no_event() {
    assert!(Full::diff("a\nb\n", "a\nb\n").is_empty());
    assert!(Full::diff("", "").is_empty());
    assert!(Incremental::diff(at_origin("foo\nbar"), "foo\nbar").is_empty());
    assert!(Incremental::diff(at_origin(""), "").is_empty());
    let anchored = RopeSlice { slice: "x😀y", absolute_pos: Position { line: 7, character: 3 } };
    assert!(Incremental::diff(anchored, "x😀y").is_empty());
}

#[test]
fn anchor_moves_the_positions() {
    let old = RopeSlice { slice: "foobar", absolute_pos: Position { line: 4, character: 2 } };
    let changes = Incremental::diff(old, "fooXbar");
    assert_eq!(show(&changes), vec![(range(4, 5, 4, 5), Some(0), "X".to_string())]);
}

#[test]
fn carriage_return_line_feed_is_one_break() {
    let changes = Full::diff("a\r\nb\r\nc\r\n", "a\r\nB\r\nc\r\n");
    assert_eq!(show(&changes), vec![(range(1, 0, 2, 0), None, "B\r\n".to_string())]);
    let changes = Incremental::diff(at_origin("a\r\nbc"), "a\r\nbXc");
    assert_eq!(show(&changes), vec![(range(1, 1, 1, 1), Some(0), "X".to_string())]);
}
