//! The document as the language server last saw it: where a range lies in
//! it, and what it is after a change.

use vstd::prelude::*;
use vstd::string::*;
use vstd::utf8::*;

use crate::chars_diff::{incremental_events, Incremental, RopeSlice};
use crate::event::{Changes, EventView, LspPosition, LspRange};
use crate::script::{myers_script, widened};
use crate::text::{
    byte_to_line, lemma_breaks_bounded, lemma_line_start_bounds, lemma_line_start_past_end,
    line_of, line_start, line_to_byte, substr, Position,
};

verus! {

/// The byte offset in `doc` that a position names: the start of its line
/// and as many bytes on as its character says.
pub open spec fn offset_of(doc: Seq<u8>, p: LspPosition) -> int {
    line_start(doc, p.line as nat) + p.character
}

/// `doc` after one event: the text of the event in place of its range.
pub open spec fn apply_event(doc: Seq<u8>, e: EventView) -> Seq<u8> {
    match e.range {
        Some(r) => doc.subrange(0, offset_of(doc, r.start)) + e.text + doc.subrange(
            offset_of(doc, r.end),
            doc.len() as int,
        ),
        None => e.text,
    }
}

/// `doc` after the first `k` events, one after the other, each applied to
/// what the events before it have left.
pub open spec fn applied_first(doc: Seq<u8>, events: Seq<EventView>, k: int) -> Seq<u8>
    decreases k,
{
    if k <= 0 {
        doc
    } else {
        apply_event(applied_first(doc, events, k - 1), events[k - 1])
    }
}

/// The range lies in `doc`: it begins at or before its end, within the
/// text, and both ends are character boundaries.
pub open spec fn range_in(doc: Seq<u8>, r: LspRange) -> bool {
    &&& offset_of(doc, r.start) <= offset_of(doc, r.end) <= doc.len()
    &&& is_char_boundary(doc, offset_of(doc, r.start))
    &&& is_char_boundary(doc, offset_of(doc, r.end))
}

/// The encoding of two runs of characters is the encoding of the first
/// followed by the encoding of the second.
pub proof fn lemma_encode_concat(a: Seq<char>, b: Seq<char>)
    ensures
        encode_utf8(a + b) == encode_utf8(a) + encode_utf8(b),
    decreases a.len(),
{
    if a.len() == 0 {
        assert(a + b =~= b);
        assert(encode_utf8(a) + encode_utf8(b) =~= encode_utf8(b));
    } else {
        lemma_encode_concat(a.drop_first(), b);
        assert((a + b).drop_first() =~= a.drop_first() + b);
        assert(encode_utf8(a + b) =~= encode_utf8(a) + encode_utf8(b));
    }
}

/// The byte offset that a position names in `doc`, where it lies within.
fn position_offset(doc: &str, p: LspPosition) -> (r: Option<usize>)
    ensures
        r is Some <==> offset_of(doc.spec_bytes(), p) <= doc.spec_bytes().len(),
        r is Some ==> r->0 == offset_of(doc.spec_bytes(), p),
{
    let len = doc.as_bytes().len();
    proof {
        lemma_breaks_bounded(doc.spec_bytes(), len as int);
        lemma_line_start_bounds(doc.spec_bytes(), p.line as nat, 0);
        if p.line > len {
            lemma_line_start_past_end(doc.spec_bytes(), p.line as nat);
        }
    }
    let start = if p.line > len as u64 {
        len
    } else {
        line_to_byte(doc, p.line as usize)
    };
    if p.character > (len - start) as u64 {
        None
    } else {
        Some(start + p.character as usize)
    }
}

/// The byte offsets at which a range begins and ends in `doc`, where the
/// range lies in it.
pub fn range_offsets(doc: &str, range: LspRange) -> (r: Option<(usize, usize)>)
    ensures
        r is Some <==> range_in(doc.spec_bytes(), range),
        match r {
            Some((start, end)) => start == offset_of(doc.spec_bytes(), range.start) && end
                == offset_of(doc.spec_bytes(), range.end),
            None => true,
        },
{
    proof {
        lemma_line_start_bounds(doc.spec_bytes(), range.start.line as nat, 0);
    }
    match (position_offset(doc, range.start), position_offset(doc, range.end)) {
        (Some(start), Some(end)) => {
            if start <= end && doc.is_char_boundary(start) && doc.is_char_boundary(end) {
                Some((start, end))
            } else {
                None
            }
        },
        _ => None,
    }
}

/// The position at which the piece of `doc` from byte `start` on stands,
/// as the differ takes it: the line of `start`, and the character that the
/// range names.
pub open spec fn piece_anchor(doc: Seq<u8>, range: LspRange, start: int) -> Position {
    Position { line: line_of(doc, start) as usize, character: range.start.character as usize }
}

/// The change events that turn the piece of `doc` between two byte offsets
/// into `change_text`, character by character.
pub fn char_diff(
    doc: &str,
    range: LspRange,
    change_text: &str,
    start_offset: usize,
    end_offset: usize,
) -> (changes: Changes)
    requires
        start_offset <= end_offset <= doc.spec_bytes().len(),
        is_char_boundary(doc.spec_bytes(), start_offset as int),
        is_char_boundary(doc.spec_bytes(), end_offset as int),
        range.start.character <= usize::MAX,
        end_offset - start_offset + change_text.spec_bytes().len() + 2 <= isize::MAX,
    ensures
        changes.batch() == incremental_events(
            piece_anchor(doc.spec_bytes(), range, start_offset as int),
            doc.spec_bytes().subrange(start_offset as int, end_offset as int),
            change_text.spec_bytes(),
            myers_script(
                widened(doc.spec_bytes().subrange(start_offset as int, end_offset as int)),
                widened(change_text.spec_bytes()),
            ),
        ),
{
    let old_slice = RopeSlice {
        slice: substr(doc, start_offset, end_offset),
        absolute_pos: Position {
            line: byte_to_line(doc, start_offset),
            character: range.start.character as usize,
        },
    };
    Incremental::diff(old_slice, change_text)
}

/// Replaces the range of `doc` by `change_text`, and gives the change
/// events that do the same character by character. Where the range does not
/// lie in `doc`, nothing is changed and nothing is given.
pub fn with_change(change_text: &str, range: LspRange, doc: &mut String) -> (changes: Option<
    Changes,
>)
    requires
        encode_utf8(old(doc)@).len() + change_text.spec_bytes().len() + 2 <= isize::MAX,
    ensures
        changes is Some <==> range_in(encode_utf8(old(doc)@), range),
        changes is None ==> final(doc)@ == old(doc)@,
        changes is Some ==> encode_utf8(final(doc)@) == apply_event(
            encode_utf8(old(doc)@),
            EventView { range: Some(range), range_length: None, text: change_text.spec_bytes() },
        ),
        changes is Some ==> changes->0.batch() == incremental_events(
            piece_anchor(
                encode_utf8(old(doc)@),
                range,
                offset_of(encode_utf8(old(doc)@), range.start),
            ),
            encode_utf8(old(doc)@).subrange(
                offset_of(encode_utf8(old(doc)@), range.start),
                offset_of(encode_utf8(old(doc)@), range.end),
            ),
            change_text.spec_bytes(),
            myers_script(
                widened(
                    encode_utf8(old(doc)@).subrange(
                        offset_of(encode_utf8(old(doc)@), range.start),
                        offset_of(encode_utf8(old(doc)@), range.end),
                    ),
                ),
                widened(change_text.spec_bytes()),
            ),
        ),
{
    let text = doc.as_str();
    let len = text.as_bytes().len();
    match range_offsets(text, range) {
        None => None,
        Some((start, end)) => {
            proof {
                lemma_line_start_bounds(text.spec_bytes(), range.start.line as nat, 0);
            }
            let changes = char_diff(text, range, change_text, start, end);
            proof {
                encode_utf8_valid_utf8(text@);
                is_char_boundary_start_end_of_seq(text.spec_bytes());
            }
            let head = substr(text, 0, start);
            let tail = substr(text, end, len);
            let mut after = head.to_owned();
            after.append(change_text);
            after.append(tail);
            proof {
                lemma_encode_concat(head@, change_text@);
                lemma_encode_concat(head@ + change_text@, tail@);
            }
            *doc = after;
            Some(changes)
        },
    }
}

} // verus!
