use lsp_diff::chars_diff::{Incremental, RopeSlice};
use lsp_diff::document::with_change;
use lsp_diff::event::{Changes, LspPosition, LspRange};
use lsp_diff::rope_diff::{Full, LineRopeSlice, Rope};
use lsp_diff::hash::{hash_line, hash_lines};
use lsp_diff::script::{is_well_formed, whole, widen, EditOp};
use lsp_diff::text::{line_count, line_to_byte, Position};

fn range(sl: u64, sc: u64, el: u64, ec: u64) -> Option<LspRange> {
    Some(LspRange {
        start: LspPosition { line: sl, character: sc },
        end: LspPosition { line: el, character: ec },
    })
}

fn origin(text: &str) -> RopeSlice<'_> {
    RopeSlice { slice: text, absolute_pos: Position { line: 0, character: 0 } }
}

fn listed(changes: &Changes) -> Vec<(Option<LspRange>, Option<u64>, String)> {
    let mut out = Vec::new();
    for i in 0..changes.len() {
        let e = changes.get(i);
        out.push((e.range, e.range_length, e.text.clone()));
    }
    out
}

fn offset(doc: &str, p: LspPosition) -> usize {
    line_to_byte(doc, p.line as usize) + p.character as usize
}

/// Each event is applied to what the events before it have left.
fn applied_in_order(old: &str, changes: &Changes) -> String {
    let mut doc = old.to_string();
    for i in 0..changes.len() {
        let e = changes.get(i);
        let r = e.range.unwrap();
        let from = offset(&doc, r.start);
        let to = offset(&doc, r.end);
        doc.replace_range(from..to, &e.text);
    }
    doc
}

fn pairs() -> Vec<(&'static str, &'static str)> {
    vec![
        ("", ""),
        ("", "a"),
        ("a", ""),
        ("a\n", "a"),
        ("a", "a\n"),
        ("a\nb", "a\n"),
        ("a\nb\nc\n", "a\nc\n"),
        ("a\nb\nc\nd\ne\n", "c\nE\n"),
        ("one\ntwo\nthree\nfour\n", "zero\none\nthree\nfive\nsix\n"),
        ("x\r\ny\r\nz", "x\r\nY\r\nz\r\n"),
        ("a\rb\rc", "a\rc"),
        ("a\r", "a\r\n"),
        ("a\r\n", "a\r"),
        ("h😀\nworld\n", "h😁\nworld\nmore 🙀\n"),
        ("p\u{2028}q\u{85}r", "p\u{2028}r"),
        ("same\nsame\nsame\n", "same\nsame\n"),
        ("k\nl\nm\n", "k\nm\nl\n"),
    ]
}

#[test]
fn line_diff_round_trip_in_order() {
    for (old, new) in pairs() {
        let changes = Full::diff(old, new);
        assert_eq!(applied_in_order(old, &changes), new, "{:?} -> {:?}", old, new);
    }
}

#[test]
fn line_diff_ranges_follow_the_events_before() {
    let old = "a\nb\nc\nd\ne\n";
    let new = "c\nE\n";
    let changes = Full::diff(old, new);
    assert_eq!(
        listed(&changes),
        vec![
            (range(0, 0, 2, 0), None, String::new()),
            (range(1, 0, 3, 0), None, "E\n".to_string()),
        ]
    );
    assert_eq!(applied_in_order(old, &changes), new);

    let old = "a\nb\nc\nd\n";
    let new = "b\nc\nX\nd\n";
    let changes = Full::diff(old, new);
    assert_eq!(
        listed(&changes),
        vec![
            (range(0, 0, 1, 0), None, String::new()),
            (range(2, 0, 2, 0), Some(0), "X\n".to_string()),
        ]
    );
    assert_eq!(applied_in_order(old, &changes), new);

    let old = "a\nb\nc\nd\n";
    let new = "d\nX\n";
    let changes = Full::diff(old, new);
    assert_eq!(
        listed(&changes),
        vec![
            (range(0, 0, 3, 0), None, String::new()),
            (range(1, 0, 1, 0), Some(0), "X\n".to_string()),
        ]
    );
    assert_eq!(applied_in_order(old, &changes), new);

    let old = "a\nb\nc\n";
    let new = "X\nY\na\nc\nZ\n";
    let changes = Full::diff(old, new);
    assert_eq!(
        listed(&changes),
        vec![
            (range(0, 0, 0, 0), Some(0), "X\nY\n".to_string()),
            (range(3, 0, 4, 0), None, String::new()),
            (range(4, 0, 4, 0), Some(0), "Z\n".to_string()),
        ]
    );
    assert_eq!(applied_in_order(old, &changes), new);
}

#[test]
fn line_diff_events_are_valid_rise_and_change_something() {
    for (old, new) in pairs() {
        let changes = Full::diff(old, new);
        let mut doc = old.to_string();
        let mut last_start = None;
        for i in 0..changes.len() {
            let e = changes.get(i);
            let r = e.range.unwrap();
            assert!(r.start.line <= r.end.line);
            assert_eq!(r.start.character, 0);
            assert_eq!(r.end.character, 0);
            assert!(r.end.line as usize <= line_count(&doc));
            assert!(r.start != r.end || !e.text.is_empty());
            assert_eq!(e.range_length.is_some(), r.start == r.end);
            assert!(last_start.map_or(true, |start| start < r.start.line));
            last_start = Some(r.start.line);
            assert!(with_change(&e.text, r, &mut doc).is_some());
        }
        assert_eq!(doc, new);
    }
}

#[test]
fn identity_gives_the_empty_batch() {
    for (old, new) in pairs() {
        assert!(Full::diff(old, old).is_empty());
        assert!(Full::diff(new, new).is_empty());
        assert!(Incremental::diff(origin(old), old).is_empty());
        assert!(Incremental::diff(origin(new), new).is_empty());
        assert_eq!(Full::diff(old, new).is_empty(), old == new);
        assert_eq!(Incremental::diff(origin(old), new).is_empty(), old == new);
    }
}

#[test]
fn character_diff_single_events_round_trip() {
    for (old, new) in [
        ("foobarbazz", "foobaXrbazz"),
        ("foobarbazz", "foo\nfobarbazz"),
        ("foo", "foobar"),
        ("bar", "Xbar"),
        ("a😀b", "a😁b"),
        ("abc", ""),
        ("", "abc"),
    ] {
        let changes = Incremental::diff(origin(old), new);
        assert_eq!(changes.len(), 1);
        assert_eq!(applied_in_order(old, &changes), new, "{:?} -> {:?}", old, new);
    }
}

#[test]
fn character_diff_snaps_to_the_start_of_a_character() {
    let changes = Incremental::diff(origin("a😀b"), "a😁b");
    assert_eq!(listed(&changes), vec![(range(0, 1, 0, 5), None, "😁".to_string())]);
}

#[test]
fn character_diff_step_inside_a_character_is_rounded_to_nothing() {
    let inside = vec![EditOp::Replace { old: 2, old_len: 1, new: 2, new_len: 1 }];
    let changes = Incremental::diff_with_script(origin("😀"), "🙀", inside);
    assert_eq!(listed(&changes), vec![(range(0, 0, 0, 0), None, String::new())]);
}

#[test]
fn character_diff_shifts_later_events() {
    let old = "abcdef";
    let new = "aXcdYf";
    let changes = Incremental::diff(origin(old), new);
    assert_eq!(
        listed(&changes),
        vec![
            (range(0, 1, 0, 2), None, "X".to_string()),
            (range(0, 4, 0, 5), None, "Y".to_string()),
        ]
    );
    assert_eq!(applied_in_order(old, &changes), new);

    let old = "abcdef";
    let new = "acdXYZef";
    let changes = Incremental::diff(origin(old), new);
    assert_eq!(
        listed(&changes),
        vec![
            (range(0, 1, 0, 2), None, String::new()),
            (range(0, 3, 0, 3), Some(0), "XYZ".to_string()),
        ]
    );
    assert_eq!(applied_in_order(old, &changes), new);
}

#[test]
fn character_diff_forgets_the_column_shift_on_a_new_line() {
    let old = "abc\ndef";
    let new = "ac\ndXef";
    let changes = Incremental::diff(origin(old), new);
    assert_eq!(
        listed(&changes),
        vec![
            (range(0, 1, 0, 2), None, String::new()),
            (range(1, 1, 1, 1), Some(0), "X".to_string()),
        ]
    );
    assert_eq!(applied_in_order(old, &changes), new);
}

#[test]
fn character_diff_follows_a_given_script() {
    let script = vec![
        EditOp::Replace { old: 1, old_len: 2, new: 1, new_len: 4 },
        EditOp::Delete { old: 5, len: 1 },
    ];
    let changes = Incremental::diff_with_script(origin("0123456"), "0a\nbc346", script);
    assert_eq!(
        listed(&changes),
        vec![
            (range(0, 1, 0, 3), None, "a\nbc".to_string()),
            (range(1, 4, 1, 5), None, String::new()),
        ]
    );
}

#[test]
fn character_diff_wraps_a_position_below_zero() {
    let script = vec![
        EditOp::Insert { old: 2, new: 2, new_len: 1 },
        EditOp::Delete { old: 3, len: 1 },
    ];
    let old = RopeSlice { slice: "x\nabc", absolute_pos: Position { line: 0, character: 0 } };
    let changes = Incremental::diff_with_script(old, "x\n\nac", script);
    assert_eq!(
        listed(&changes),
        vec![
            (range(1, 0, 1, 0), Some(0), "\n".to_string()),
            (range(2, 0, 2, 1), None, String::new()),
        ]
    );
    let script = vec![
        EditOp::Insert { old: 4, new: 4, new_len: 1 },
        EditOp::Delete { old: 5, len: 1 },
    ];
    let old = RopeSlice { slice: "x\ny\nabc", absolute_pos: Position { line: 0, character: 0 } };
    let changes = Incremental::diff_with_script(old, "x\ny\n\nac", script);
    assert_eq!(
        listed(&changes),
        vec![
            (range(2, 0, 2, 0), Some(0), "\n".to_string()),
            (range(3, u64::MAX, 3, 0), None, String::new()),
        ]
    );
}

#[test]
fn unusable_scripts_give_way_to_one_exchange() {
    let backwards = vec![
        EditOp::Delete { old: 3, len: 1 },
        EditOp::Insert { old: 1, new: 0, new_len: 1 },
    ];
    let changes = Incremental::diff_with_script(origin("abcd"), "xabc", backwards);
    assert_eq!(listed(&changes), vec![(range(0, 0, 0, 4), None, "xabc".to_string())]);

    let out_of_range = vec![EditOp::Delete { old: 7, len: 9 }];
    let changes = Incremental::diff_with_script(origin("abcd"), "", out_of_range);
    assert_eq!(listed(&changes), vec![(range(0, 0, 0, 4), None, String::new())]);

    let unequal_bytes = vec![EditOp::Replace { old: 1, old_len: 1, new: 1, new_len: 1 }];
    let changes = Incremental::diff_with_script(origin("abcd"), "xbcd", unequal_bytes);
    assert_eq!(listed(&changes), vec![(range(0, 0, 0, 4), None, "xbcd".to_string())]);

    let changes = Incremental::diff_with_script(origin(""), "new", Vec::new());
    assert_eq!(listed(&changes), vec![(range(0, 0, 0, 0), Some(0), "new".to_string())]);

    let wrong_lines = vec![EditOp::Delete { old: 0, len: 1 }];
    let changes = Full::diff_with_script("a\nb\nc\n", "a\nX\nY\nc\n", wrong_lines);
    assert_eq!(listed(&changes), vec![(range(1, 0, 2, 0), None, "X\nY\n".to_string())]);

    let unequal_gap = vec![EditOp::Insert { old: 2, new: 2, new_len: 1 }];
    let changes = Full::diff_with_script("k\nl\nm\n", "k\nm\nl\nz\n", unequal_gap);
    assert_eq!(listed(&changes), vec![(range(1, 0, 3, 0), None, "m\nl\nz\n".to_string())]);
}

#[test]
fn line_diff_follows_a_given_script() {
    let script = vec![
        EditOp::Delete { old: 0, len: 1 },
        EditOp::Insert { old: 2, new: 1, new_len: 2 },
    ];
    let changes = Full::diff_with_script("a\nb\nc\n", "b\nX\nY\nc\n", script);
    assert_eq!(
        listed(&changes),
        vec![
            (range(0, 0, 1, 0), None, String::new()),
            (range(1, 0, 1, 0), Some(0), "X\nY\n".to_string()),
        ]
    );
    assert!(Full::diff_with_script("a\n", "a\n", vec![EditOp::Delete { old: 0, len: 1 }])
        .is_empty());
}

#[test]
fn well_formed_scripts() {
    assert!(is_well_formed(&Vec::new(), 3, 3));
    assert!(!is_well_formed(&Vec::new(), 3, 4));
    assert!(is_well_formed(&vec![EditOp::Delete { old: 6, len: 5 }], 12, 7));
    assert!(!is_well_formed(&vec![EditOp::Delete { old: 6, len: 5 }], 12, 8));
    assert!(!is_well_formed(&vec![EditOp::Delete { old: 6, len: 0 }], 12, 12));
    assert!(!is_well_formed(&vec![EditOp::Delete { old: 6, len: 7 }], 12, 5));
    assert!(is_well_formed(&vec![EditOp::Insert { old: 5, new: 5, new_len: 1 }], 10, 11));
    assert!(!is_well_formed(&vec![EditOp::Insert { old: 5, new: 4, new_len: 1 }], 10, 11));
    assert!(!is_well_formed(&vec![EditOp::Insert { old: 5, new: 5, new_len: 0 }], 10, 10));
    let two = vec![
        EditOp::Replace { old: 0, old_len: 1, new: 0, new_len: 2 },
        EditOp::Delete { old: 2, len: 1 },
    ];
    assert!(is_well_formed(&two, 3, 3));
    let touching = vec![
        EditOp::Replace { old: 0, old_len: 1, new: 0, new_len: 2 },
        EditOp::Delete { old: 1, len: 1 },
    ];
    assert!(!is_well_formed(&touching, 3, 4));
    assert!(!is_well_formed(
        &vec![EditOp::Replace { old: usize::MAX, old_len: 2, new: usize::MAX, new_len: 2 }],
        usize::MAX,
        usize::MAX
    ));
}

#[test]
fn the_exchange_of_everything() {
    assert_eq!(whole(0, 0), Vec::new());
    assert_eq!(whole(0, 3), vec![EditOp::Insert { old: 0, new: 0, new_len: 3 }]);
    assert_eq!(whole(2, 0), vec![EditOp::Delete { old: 0, len: 2 }]);
    assert_eq!(whole(2, 3), vec![EditOp::Replace { old: 0, old_len: 2, new: 0, new_len: 3 }]);
    for (m, n) in [(0, 0), (0, 3), (2, 0), (2, 3)] {
        assert!(is_well_formed(&whole(m, n), m, n));
    }
}

#[test]
fn steps_know_their_extent() {
    let d = EditOp::Delete { old: 4, len: 2 };
    assert_eq!((d.old_index(), d.old_len(), d.new_len()), (4, 2, 0));
    assert_eq!(d.new_index(1, 7), 10);
    let i = EditOp::Insert { old: 4, new: 9, new_len: 3 };
    assert_eq!((i.old_index(), i.old_len(), i.new_len()), (4, 0, 3));
    assert_eq!(i.new_index(1, 6), 9);
    let r = EditOp::Replace { old: 4, old_len: 2, new: 9, new_len: 3 };
    assert_eq!((r.old_index(), r.old_len(), r.new_len()), (4, 2, 3));
    assert_eq!(r.new_index(1, 6), 9);
}

#[test]
fn segments_carry_their_line() {
    let slice = LineRopeSlice { slice: "a\nb\r\nc", absolute_index: 10 };
    let segs = slice.segments();
    let seen: Vec<(usize, &str)> = segs.iter().map(|s| (s.pos(), s.content())).collect();
    assert_eq!(seen, vec![(10, "a\n"), (11, "b\r\n"), (12, "c")]);
    assert_eq!(slice.pos(), 10);
    assert_eq!(slice.content(), "a\nb\r\nc");

    let rope = Rope("x\n".to_string());
    let segs = rope.segments();
    let seen: Vec<(usize, &str)> = segs.iter().map(|s| (s.absolute_index, s.slice)).collect();
    assert_eq!(seen, vec![(0, "x\n"), (1, "")]);
}

#[test]
fn batches_are_read_by_place() {
    let changes = Full::diff("a\nb\nc\nd\ne\n", "c\nE\n");
    assert_eq!(changes.len(), 2);
    assert!(!changes.is_empty());
    assert_eq!(changes.get(0).text, "");
    assert_eq!(changes.get(1).text, "E\n");
    assert_eq!(changes.get(1).range, range(1, 0, 3, 0));
    assert_eq!(changes.get(1).range_length, None);
}

#[test]
fn lines_hash_as_fnv_1a_does() {
    assert_eq!(hash_line(""), 0xcbf2_9ce4_8422_2325);
    assert_eq!(hash_line("a"), 0xaf63_dc4c_8601_ec8c);
    assert_eq!(hash_line("foobar"), 0x8594_4171_f739_67e8);
    assert_eq!(hash_lines(&["a", "", "a"]), vec![hash_line("a"), hash_line(""), hash_line("a")]);
    assert_ne!(hash_line("a\n"), hash_line("a\r\n"));
}

#[test]
fn bytes_widen_to_numbers() {
    assert_eq!(widen(b""), Vec::<u64>::new());
    assert_eq!(widen(&[0, 10, 255]), vec![0u64, 10, 255]);
}

#[test]
fn character_diff_after_an_inserted_line_break() {
    let changes = Incremental::diff(origin("abcd"), "ab\ncXd");
    assert_eq!(
        listed(&changes),
        vec![
            (range(0, 2, 0, 2), Some(0), "\n".to_string()),
            (range(1, 3, 1, 3), Some(0), "X".to_string()),
        ]
    );
    let changes = Incremental::diff(origin("a\nbcd"), "a\nb\ncXd");
    assert_eq!(
        listed(&changes),
        vec![
            (range(1, 1, 1, 1), Some(0), "\n".to_string()),
            (range(2, 1, 2, 1), Some(0), "X".to_string()),
        ]
    );
    assert_eq!(applied_in_order("a\nbcd", &changes), "a\nb\ncXd");
}
