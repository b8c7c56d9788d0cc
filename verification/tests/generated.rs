use lsp_diff::chars_diff::{Incremental, RopeSlice};
use lsp_diff::document::with_change;
use lsp_diff::event::{Changes, LspPosition};
use lsp_diff::rope_diff::Full;
use lsp_diff::text::{
    byte_to_position, count_line_breaks, line_count, line_to_byte, split_lines, Position,
};

/// A small generator of numbers, the same on every run.
struct Numbers(u64);

impl Numbers {
    fn next(&mut self, below: usize) -> usize {
        self.0 = self.0.wrapping_mul(6364136223846793005).wrapping_add(1442695040888963407);
        ((self.0 >> 33) as usize) % below
    }

    fn text(&mut self, pieces: &[&str], longest: usize) -> String {
        let len = self.next(longest + 1);
        (0..len).map(|_| pieces[self.next(pieces.len())]).collect()
    }

    /// A text made from `old` by a few deletions and insertions.
    fn edited(&mut self, old: &str, pieces: &[&str]) -> String {
        let mut chars: Vec<char> = old.chars().collect();
        for _ in 0..self.next(4) {
            if !chars.is_empty() && self.next(2) == 0 {
                let at = self.next(chars.len());
                let len = self.next(chars.len() - at + 1).min(5);
                chars.drain(at..at + len);
            } else {
                let at = self.next(chars.len() + 1);
                let piece: Vec<char> = self.text(pieces, 4).chars().collect();
                chars.splice(at..at, piece);
            }
        }
        chars.into_iter().collect()
    }
}

const PIECES: [&str; 12] =
    ["a", "b", "c", " ", "\n", "\n", "\r\n", "\r", "é", "😀", "\u{2028}", "\u{85}"];

fn offset(doc: &str, p: LspPosition) -> usize {
    line_to_byte(doc, p.line as usize) + p.character as usize
}

fn applied_in_order(old: &str, changes: &Changes) -> String {
    let mut doc = old.to_string();
    for i in 0..changes.len() {
        let e = changes.get(i);
        let r = e.range.unwrap();
        assert!(r.end.line as usize <= line_count(&doc));
        let from = offset(&doc, r.start);
        let to = offset(&doc, r.end);
        assert!(from <= to && to <= doc.len());
        doc.replace_range(from..to, &e.text);
    }
    doc
}

#[test]
fn generated_line_diffs_round_trip() {
    let mut numbers = Numbers(7);
    let mut several = 0;
    for round in 0..600 {
        let old = numbers.text(&PIECES, 40);
        let new = if round % 3 == 0 {
            numbers.text(&PIECES, 40)
        } else {
            numbers.edited(&old, &PIECES)
        };
        let changes = Full::diff(&old, &new);
        assert_eq!(applied_in_order(&old, &changes), new, "{:?} -> {:?}", old, new);
        assert_eq!(changes.is_empty(), old == new);
        let mut last_start = None;
        for i in 0..changes.len() {
            let e = changes.get(i);
            let r = e.range.unwrap();
            assert!(r.start.line <= r.end.line);
            assert!((r.start.character, r.end.character) == (0, 0));
            assert!(r.start != r.end || !e.text.is_empty(), "{:?} -> {:?}", old, new);
            assert!(last_start.map_or(true, |start| start < r.start.line));
            last_start = Some(r.start.line);
        }
        if changes.len() == 1 {
            let e = changes.get(0);
            let mut doc = old.clone();
            assert!(with_change(&e.text, e.range.unwrap(), &mut doc).is_some());
            assert_eq!(doc, new);
            let r = e.range.unwrap();
            let gone = &split_lines(&old)[r.start.line as usize..r.end.line as usize];
            let come = split_lines(&e.text);
            assert!(gone.iter().all(|line| !come[..come.len() - 1].contains(line)));
        } else if changes.len() > 1 {
            several += 1;
        }
    }
    assert!(several > 50);
}

#[test]
fn generated_character_diffs_are_empty_only_for_equal_texts() {
    let mut numbers = Numbers(11);
    for _ in 0..600 {
        let old = numbers.text(&PIECES, 30);
        let new = numbers.edited(&old, &PIECES);
        let line = numbers.next(9);
        let character = numbers.next(9);
        let piece = RopeSlice { slice: &old, absolute_pos: Position { line, character } };
        let changes = Incremental::diff(piece, &new);
        assert_eq!(changes.is_empty(), old == new);
        for i in 0..changes.len() {
            let e = changes.get(i);
            let r = e.range.unwrap();
            assert_eq!(e.range_length.is_some(), r.start == r.end && e.range_length == Some(0));
            assert!(new.contains(e.text.as_str()));
        }
    }
}

#[test]
fn generated_one_step_character_diffs_round_trip() {
    let mut numbers = Numbers(13);
    let plain = ["a", "b", "c", "d", "\n", " "];
    let mut seen = 0;
    let mut several = 0;
    for _ in 0..600 {
        let old = numbers.text(&plain, 20);
        let new = numbers.edited(&old, &plain);
        let piece = RopeSlice { slice: &old, absolute_pos: Position { line: 0, character: 0 } };
        let changes = Incremental::diff(piece, &new);
        if changes.len() == 1 {
            seen += 1;
            let e = changes.get(0);
            let mut doc = old.clone();
            assert!(with_change(&e.text, e.range.unwrap(), &mut doc).is_some());
            assert_eq!(doc, new, "{:?} -> {:?}", old, new);
            if e.text == new && !new.is_empty() && old.len() + e.text.len() > doc.len() {
                assert!(old.chars().all(|c| !new.contains(c)), "{:?} -> {:?}", old, new);
            }
        } else if changes.len() > 1 {
            several += 1;
        }
    }
    assert!(seen > 50);
    assert!(several > 50);
}

#[test]
fn generated_texts_are_their_lines() {
    let mut numbers = Numbers(17);
    for _ in 0..600 {
        let text = numbers.text(&PIECES, 40);
        let lines = split_lines(&text);
        assert_eq!(lines.concat(), text);
        assert_eq!(lines.len(), line_count(&text));
        assert_eq!(lines.len(), count_line_breaks(&text) + 1);
        let mut start = 0;
        for (l, line) in lines.iter().enumerate() {
            assert_eq!(line_to_byte(&text, l), start);
            for inside in 0..line.len() {
                if text.is_char_boundary(start + inside) {
                    let p = byte_to_position(&text, start + inside);
                    assert_eq!(p, Position { line: l, character: inside });
                }
            }
            start += line.len();
        }
        assert_eq!(line_to_byte(&text, lines.len()), text.len());
    }
}
