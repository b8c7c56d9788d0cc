use lsp_diff::document::{char_diff, range_offsets, with_change};
use lsp_diff::event::{Changes, LspPosition, LspRange};
use lsp_diff::rope_diff::Full;

fn span(sl: u64, sc: u64, el: u64, ec: u64) -> LspRange {
    LspRange {
        start: LspPosition { line: sl, character: sc },
        end: LspPosition { line: el, character: ec },
    }
}

fn told(changes: &Changes) -> Vec<(Option<LspRange>, Option<u64>, String)> {
    let mut out = Vec::new();
    for i in 0..changes.len() {
        let e = changes.get(i);
        out.push((e.range, e.range_length, e.text.clone()));
    }
    out
}

#[test]
fn ranges_become_byte_offsets() {
    let doc = "ab\ncd\r\nef";
    assert_eq!(range_offsets(doc, span(0, 0, 0, 0)), Some((0, 0)));
    assert_eq!(range_offsets(doc, span(0, 1, 1, 2)), Some((1, 5)));
    assert_eq!(range_offsets(doc, span(1, 0, 2, 2)), Some((3, 9)));
    assert_eq!(range_offsets(doc, span(2, 2, 3, 0)), Some((9, 9)));
    assert_eq!(range_offsets(doc, span(3, 0, 3, 0)), Some((9, 9)));
    assert_eq!(range_offsets(doc, span(9, 0, 9, 0)), Some((9, 9)));
    assert_eq!(range_offsets(doc, span(u64::MAX, 0, u64::MAX, 0)), Some((9, 9)));
}

#[test]
fn ranges_outside_the_document_have_no_offsets() {
    let doc = "ab\ncd\r\nef";
    assert_eq!(range_offsets(doc, span(2, 3, 2, 3)), None);
    assert_eq!(range_offsets(doc, span(3, 1, 3, 1)), None);
    assert_eq!(range_offsets(doc, span(1, 0, 0, 0)), None);
    assert_eq!(range_offsets(doc, span(0, 0, 0, u64::MAX)), None);
    assert_eq!(range_offsets("a😀b", span(0, 2, 0, 5)), None);
    assert_eq!(range_offsets("a😀b", span(0, 1, 0, 3)), None);
    assert_eq!(range_offsets("a😀b", span(0, 1, 0, 5)), Some((1, 5)));
}

#[test]
fn a_change_is_applied_and_refined() {
    let mut doc = "foo\nbarbazz\nend".to_string();
    let changes = with_change("baXr", span(1, 0, 1, 3), &mut doc).unwrap();
    assert_eq!(doc, "foo\nbaXrbazz\nend");
    assert_eq!(told(&changes), vec![(Some(span(1, 2, 1, 2)), Some(0), "X".to_string())]);

    let mut doc = "one\ntwo\nthree".to_string();
    let changes = with_change("", span(1, 0, 2, 0), &mut doc).unwrap();
    assert_eq!(doc, "one\nthree");
    assert_eq!(told(&changes), vec![(Some(span(1, 0, 2, 0)), None, String::new())]);

    let mut doc = "ab".to_string();
    let changes = with_change("XY", span(0, 1, 0, 1), &mut doc).unwrap();
    assert_eq!(doc, "aXYb");
    assert_eq!(told(&changes), vec![(Some(span(0, 1, 0, 1)), Some(0), "XY".to_string())]);

    let mut doc = "same".to_string();
    let changes = with_change("am", span(0, 1, 0, 3), &mut doc).unwrap();
    assert_eq!(doc, "same");
    assert!(changes.is_empty());
}

#[test]
fn a_change_outside_the_document_changes_nothing() {
    let mut doc = "ab\ncd".to_string();
    assert!(with_change("x", span(5, 1, 5, 1), &mut doc).is_none());
    assert_eq!(doc, "ab\ncd");
    assert!(with_change("x", span(1, 1, 0, 1), &mut doc).is_none());
    assert_eq!(doc, "ab\ncd");
}

#[test]
fn a_piece_is_compared_where_it_stands() {
    let doc = "foo\nbarbazz\nend";
    let changes = char_diff(doc, span(1, 3, 1, 7), "bXazz", 7, 11);
    assert_eq!(told(&changes), vec![(Some(span(1, 4, 1, 4)), Some(0), "X".to_string())]);
    assert!(char_diff(doc, span(1, 3, 1, 7), "bazz", 7, 11).is_empty());
}

#[test]
fn the_one_event_of_a_line_diff_applies_to_the_document() {
    for (old, new) in [
        ("alpha\nbeta\ngamma\n", "alpha\nBETA\ngamma\n"),
        ("a\nb\n", "a\nb\nc\nd\n"),
        ("a\nb\nc\n", "a\n"),
        ("", "x"),
        ("x\r\ny", "x\r\nz"),
    ] {
        let changes = Full::diff(old, new);
        assert_eq!(changes.len(), 1);
        let event = changes.get(0);
        let mut doc = old.to_string();
        assert!(with_change(&event.text, event.range.unwrap(), &mut doc).is_some());
        assert_eq!(doc, new);
    }
}
