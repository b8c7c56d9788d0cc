//! What holds of every diff: the laws of the two differs, proved from the
//! definitions of their events.

use vstd::prelude::*;
use vstd::utf8::*;

use crate::chars_diff::{
    event_at, incremental_events, initial_shift, latched, placed, shift_after, usable_script,
    wrap,
};
use crate::document::{applied_first, apply_event, offset_of, range_in};
use crate::event::{position_le, EventView};
use crate::rope_diff::{
    checked_script, common_prefix, common_suffix, full_events, line_event, lines_text,
    shared_head, shared_tail, step_start, window_new, window_old,
};
use crate::script::{
    gaps_agree_from, lemma_whole_script_transforms, new_cursor, old_cursor, transforms,
    well_formed_from, EditOp,
};
use crate::text::{
    boundary_floor, break_ends_at, breaks_upto, column_of, lemma_breaks_bounded,
    lemma_breaks_monotone, lemma_floor_bounds, lemma_floor_monotone, lemma_line_of_start,
    lemma_line_start_is_boundary, lemma_line_start_is_break, lemma_line_start_past_end,
    lemma_line_starts_ordered, lemma_splice_line_start, lemma_splice_tail, line_breaks,
    line_bytes, line_of, line_start, line_total, lines_of, same_line_start, spliced, Position,
};

verus! {

/// The script that a line-level diff turns into events.
pub open spec fn full_script(old: Seq<u8>, new: Seq<u8>, ops: Seq<EditOp>) -> Seq<EditOp> {
    checked_script(ops, window_old(old, new), window_new(old, new))
}

/// The line of the old text at which step `k` of the script begins.
pub open spec fn old_line(old: Seq<u8>, new: Seq<u8>, ops: Seq<EditOp>, k: int) -> int {
    shared_head(old, new) + full_script(old, new, ops)[k].old_start()
}

/// The line of the new text at which step `k` of the script begins.
pub open spec fn new_line(old: Seq<u8>, new: Seq<u8>, ops: Seq<EditOp>, k: int) -> int {
    shared_head(old, new) + step_start(full_script(old, new, ops), k)
}

/// The document when the first `k` steps of the script are done: the new
/// text as far as the steps have come in it, then the old text from where
/// they have come in it.
pub open spec fn partly(old: Seq<u8>, new: Seq<u8>, ops: Seq<EditOp>, k: int) -> Seq<u8> {
    let script = full_script(old, new, ops);
    let p = shared_head(old, new);
    spliced(
        new,
        line_start(new, (p + new_cursor(script, k)) as nat),
        old,
        line_start(old, (p + old_cursor(script, k)) as nat),
    )
}

/// A text compared with itself gives no event, whatever the comparison
/// reports: neither line by line nor byte by byte.
pub proof fn law_identity(t: Seq<u8>, anchor: Position, ops: Seq<EditOp>)
    ensures
        full_events(t, t, ops) == Seq::<EventView>::empty(),
        incremental_events(anchor, t, t, ops) == Seq::<EventView>::empty(),
{
    lemma_common_prefix_same(lines_of(t), 0);
    assert(window_old(t, t).len() == 0);
    assert(window_new(t, t).len() == 0);
}

/// Round trip. The events of a line-level diff, applied one after the
/// other, each to the document that the events before it have left, turn the
/// old text into the new one. This holds whatever the comparison of the
/// windows reported.
pub proof fn law_full_round_trip(old: Seq<u8>, new: Seq<u8>, ops: Seq<EditOp>)
    requires
        old.len() + new.len() + 2 <= usize::MAX,
    ensures
        applied_first(old, full_events(old, new, ops), full_events(old, new, ops).len() as int)
            == new,
{
    let script = full_script(old, new, ops);
    if window_old(old, new).len() == 0 && window_new(old, new).len() == 0 {
        let p = shared_head(old, new);
        lemma_window(old, new);
        lemma_all_lines_are_the_text(old);
        lemma_all_lines_are_the_text(new);
        lemma_lines_text_join(old, 0, p, line_total(old) as int);
        lemma_lines_text_join(new, 0, p, line_total(new) as int);
    } else {
        lemma_steps_apply(old, new, ops, script.len() as int);
        lemma_all_steps_done(old, new, ops);
    }
}

/// Validity. Every event of a line-level diff has a range in the document
/// that the events before it have left: the range begins at the start of a
/// line and ends, at or behind its beginning, at the start of a line or at
/// the end of that document. In well-formed UTF-8 both ends are character
/// boundaries.
pub proof fn law_full_events_in_range(old: Seq<u8>, new: Seq<u8>, ops: Seq<EditOp>, k: int)
    requires
        old.len() + new.len() + 2 <= usize::MAX,
        0 <= k < full_events(old, new, ops).len(),
    ensures
        ({
            let doc = applied_first(old, full_events(old, new, ops), k);
            let e = full_events(old, new, ops)[k];
            &&& e.range is Some
            &&& position_le(e.range->0.start, e.range->0.end)
            &&& e.range->0.start.character == 0
            &&& e.range->0.end.character == 0
            &&& e.range->0.end.line <= line_total(doc)
            &&& 0 <= offset_of(doc, e.range->0.start) <= offset_of(doc, e.range->0.end)
                <= doc.len()
            &&& valid_utf8(old) && valid_utf8(new) ==> range_in(doc, e.range->0)
        }),
{
    let doc = applied_first(old, full_events(old, new, ops), k);
    let e = full_events(old, new, ops)[k];
    lemma_steps_apply(old, new, ops, k);
    lemma_step_applies(old, new, ops, k);
    lemma_step_facts(old, new, ops, k);
    if valid_utf8(old) && valid_utf8(new) {
        lemma_step_seam(old, new, ops, k);
        let a = line_start(new, new_line(old, new, ops, k) as nat);
        let b = line_start(old, old_line(old, new, ops, k) as nat);
        lemma_line_start_is_boundary(new, new_line(old, new, ops, k) as nat);
        lemma_line_start_is_boundary(old, old_line(old, new, ops, k) as nat);
        valid_utf8_split(new, a);
        valid_utf8_split(old, b);
        valid_utf8_concat(new.subrange(0, a), old.subrange(b, old.len() as int));
        lemma_line_start_is_boundary(doc, e.range->0.start.line as nat);
        lemma_line_start_is_boundary(doc, e.range->0.end.line as nat);
    }
}

/// Monotonic starts. The events of a line-level diff begin at rising lines.
/// So do their steps in the old text: each event begins, taken back to the
/// lines of the old text, behind the lines that the one before it takes
/// away. An event begins as many lines from there as the steps before it
/// have brought in, less those that they have taken away.
pub proof fn law_full_events_rise(old: Seq<u8>, new: Seq<u8>, ops: Seq<EditOp>, i: int, j: int)
    requires
        old.len() + new.len() + 2 <= usize::MAX,
        0 <= i < j < full_events(old, new, ops).len(),
    ensures
        full_events(old, new, ops)[i].range is Some,
        full_events(old, new, ops)[j].range is Some,
        full_events(old, new, ops)[i].range->0.start.line < full_events(
            old,
            new,
            ops,
        )[j].range->0.start.line,
        old_line(old, new, ops, i) + full_script(old, new, ops)[i].old_count() < old_line(
            old,
            new,
            ops,
            j,
        ),
        full_events(old, new, ops)[j].range->0.start.line == old_line(old, new, ops, j)
            + new_cursor(full_script(old, new, ops), j) - old_cursor(
            full_script(old, new, ops),
            j,
        ),
{
    let script = full_script(old, new, ops);
    lemma_window(old, new);
    lemma_checked_script_transforms(old, new, ops);
    lemma_step_applies(old, new, ops, i);
    lemma_step_applies(old, new, ops, j);
    lemma_step_facts(old, new, ops, j);
    lemma_starts_rise(script, window_old(old, new), window_new(old, new), i, j);
    lemma_steps_ordered(
        script,
        0,
        0,
        0,
        window_old(old, new).len() as int,
        window_new(old, new).len() as int,
        i,
        j,
    );
}

/// No no-ops. Every event of a line-level diff changes something: its range
/// is not empty, or its text is not.
pub proof fn law_full_no_noop(old: Seq<u8>, new: Seq<u8>, ops: Seq<EditOp>, k: int)
    requires
        old.len() + new.len() + 2 <= usize::MAX,
        0 <= k < full_events(old, new, ops).len(),
    ensures
        full_events(old, new, ops)[k].range is Some,
        full_events(old, new, ops)[k].range->0.start != full_events(old, new, ops)[k].range->0.end
            || full_events(old, new, ops)[k].text.len() > 0,
{
    let script = full_script(old, new, ops);
    let p = shared_head(old, new);
    let op = script[k];
    let to = step_start(script, k);
    lemma_window(old, new);
    lemma_checked_script_transforms(old, new, ops);
    lemma_step_applies(old, new, ops, k);
    lemma_step_facts(old, new, ops, k);
    lemma_step_before_last(old, new, ops, k);
    lemma_transforms_from(script, window_old(old, new), window_new(old, new), k + 1);
    assert(full_events(old, new, ops)[k] == line_event(new, p, op, to));
    if op is Insert {
        let count = op.new_count();
        lemma_line_starts_ordered(new, p + to, p + to + 1);
        lemma_line_starts_ordered(new, p + to + 1, p + to + count);
        if p + to < line_breaks(new) {
            lemma_inner_line(new, p + to);
        }
    }
}

/// Monotonic starts. The steps that a character-level diff turns into
/// events begin at positions of the old piece that never fall back: each
/// event begins, in the piece as it was, at or after the one before it.
pub proof fn law_incremental_starts_rise(
    old: Seq<u8>,
    new: Seq<u8>,
    ops: Seq<EditOp>,
    i: int,
    j: int,
)
    requires
        old.len() <= usize::MAX,
        new.len() <= usize::MAX,
        0 <= i < j < usable_script(ops, old, new).len(),
    ensures
        ({
            let script = usable_script(ops, old, new);
            let a = script[i].old_start();
            let b = script[j].old_start();
            line_of(old, a) < line_of(old, b) || (line_of(old, a) == line_of(old, b)
                && column_of(old, a) <= column_of(old, b))
        }),
{
    let script = usable_script(ops, old, new);
    lemma_whole_script_transforms(old, new);
    lemma_steps_ordered(script, 0, 0, 0, old.len() as int, new.len() as int, i, j);
    lemma_steps_ordered(script, 0, 0, 0, old.len() as int, new.len() as int, j, j);
    lemma_position_monotone(old, script[i].old_start(), script[j].old_start());
}

/// No no-ops. An event of a character-level diff changes something, its
/// range being not empty or its text being not, where its step begins and
/// ends at character boundaries of both texts. A step that a comparison of
/// bytes lets begin or end inside a character is rounded down, and may then
/// leave nothing to change.
pub proof fn law_incremental_no_noop(
    anchor: Position,
    old: Seq<u8>,
    new: Seq<u8>,
    ops: Seq<EditOp>,
    i: int,
)
    requires
        valid_utf8(old),
        valid_utf8(new),
        old.len() < usize::MAX,
        new.len() < usize::MAX,
        0 <= i < incremental_events(anchor, old, new, ops).len(),
        ({
            let op = usable_script(ops, old, new)[i];
            &&& is_char_boundary(old, op.old_start())
            &&& is_char_boundary(old, op.old_end())
            &&& match op {
                EditOp::Delete { .. } => true,
                EditOp::Insert { new: at, new_len, .. } => is_char_boundary(new, at as int)
                    && is_char_boundary(new, at + new_len),
                EditOp::Replace { new: at, new_len, .. } => is_char_boundary(new, at as int)
                    && is_char_boundary(new, at + new_len),
            }
        }),
    ensures
        incremental_events(anchor, old, new, ops)[i].range is Some,
        incremental_events(anchor, old, new, ops)[i].range->0.start != incremental_events(
            anchor,
            old,
            new,
            ops,
        )[i].range->0.end || incremental_events(anchor, old, new, ops)[i].text.len() > 0,
{
    let m = old.len() as int;
    let n = new.len() as int;
    let script = usable_script(ops, old, new);
    let op = script[i];
    lemma_whole_script_transforms(old, new);
    lemma_steps_ordered(script, 0, 0, 0, m, n, i, i);
    let st = latched(
        shift_after(anchor, old, new, script, i),
        line_of(old, op.old_start()) as int,
    );
    assert(incremental_events(anchor, old, new, ops)[i] == event_at(st, old, new, op));
    match op {
        EditOp::Insert { new: at, new_len, .. } => {
            lemma_well_formed_new_in_range(script, 0, 0, 0, m, n, i);
            lemma_floor_bounds(new, at as int);
            assert(boundary_floor(new, at as int) == at);
            assert(boundary_floor(new, at + new_len) == at + new_len);
        },
        _ => {
            let a = op.old_start();
            let b = op.old_end();
            lemma_positions_differ(old, a, b);
            assert(boundary_floor(old, a) == a);
            assert(boundary_floor(old, b) == b);
            if line_of(old, a) != line_of(old, b) {
                lemma_wrap_apart(
                    st.line_offset + line_of(old, a),
                    st.line_offset + line_of(old, b),
                );
            } else {
                lemma_wrap_apart(
                    st.char_offset + column_of(old, a),
                    st.char_offset + column_of(old, b),
                );
            }
        },
    }
}

/// Validity of the first event. Where a piece is a whole document, the
/// first event of its character-level diff has a range that lies in the
/// document: it begins where the first step begins and ends where it ends,
/// both rounded down to a character boundary. The events after it are
/// placed by the running shift, which does not keep every one of them
/// within the document of its moment.
pub proof fn law_incremental_first_in_range(old: Seq<u8>, new: Seq<u8>, ops: Seq<EditOp>)
    requires
        valid_utf8(old),
        old.len() < usize::MAX,
        new.len() < usize::MAX,
        incremental_events(Position { line: 0, character: 0 }, old, new, ops).len() > 0,
    ensures
        ({
            let e = incremental_events(Position { line: 0, character: 0 }, old, new, ops)[0];
            let op = usable_script(ops, old, new)[0];
            &&& e.range is Some
            &&& range_in(old, e.range->0)
            &&& offset_of(old, e.range->0.start) == boundary_floor(old, op.old_start())
            &&& offset_of(old, e.range->0.end) == boundary_floor(old, op.old_end())
        }),
{
    let origin = Position { line: 0, character: 0 };
    let script = usable_script(ops, old, new);
    let op = script[0];
    let a = op.old_start();
    let b = op.old_end();
    lemma_whole_script_transforms(old, new);
    lemma_steps_ordered(script, 0, 0, 0, old.len() as int, new.len() as int, 0, 0);
    let e = incremental_events(origin, old, new, ops)[0];
    assert(e == event_at(latched(initial_shift(origin), line_of(old, a) as int), old, new, op));
    lemma_position_offset(old, a);
    lemma_position_offset(old, b);
    lemma_floor_monotone(old, a, b);
    lemma_floor_bounds(old, b);
    lemma_floor_is_boundary(old, a);
    lemma_floor_is_boundary(old, b);
}

/// Round trip for one step. Where a piece is a whole document and its
/// character-level diff has one step, which cuts no character, the one
/// event lies in the document and turns it into the new text.
pub proof fn law_incremental_one_step(old: Seq<u8>, new: Seq<u8>, ops: Seq<EditOp>)
    requires
        valid_utf8(old),
        valid_utf8(new),
        old.len() < usize::MAX,
        new.len() < usize::MAX,
        usable_script(ops, old, new).len() == 1,
        is_char_boundary(old, usable_script(ops, old, new)[0].old_start()),
        is_char_boundary(old, usable_script(ops, old, new)[0].old_end()),
        is_char_boundary(new, usable_script(ops, old, new)[0].new_start(0, 0)),
        is_char_boundary(new, usable_script(ops, old, new)[0].new_end(0, 0)),
    ensures
        applied_first(
            old,
            incremental_events(Position { line: 0, character: 0 }, old, new, ops),
            incremental_events(Position { line: 0, character: 0 }, old, new, ops).len() as int,
        ) == new,
        old != new ==> incremental_events(Position { line: 0, character: 0 }, old, new, ops).len()
            == 1 && incremental_events(
            Position { line: 0, character: 0 },
            old,
            new,
            ops,
        )[0].range is Some && range_in(
            old,
            incremental_events(Position { line: 0, character: 0 }, old, new, ops)[0].range->0,
        ),
{
    let origin = Position { line: 0, character: 0 };
    let events = incremental_events(origin, old, new, ops);
    let script = usable_script(ops, old, new);
    lemma_whole_script_transforms(old, new);
    if old != new {
        let op = script[0];
        let a = op.old_start();
        let b = op.old_end();
        let to = op.new_start(0, 0);
        let upto = op.new_end(0, 0);
        reveal_with_fuel(well_formed_from, 3);
        reveal_with_fuel(gaps_agree_from, 3);
        reveal_with_fuel(applied_first, 3);
        lemma_position_offset(old, a);
        lemma_position_offset(old, b);
        lemma_floor_bounds(old, a);
        lemma_floor_bounds(old, b);
        lemma_floor_bounds(new, to);
        lemma_floor_bounds(new, upto);
        assert(boundary_floor(old, a) == a);
        assert(boundary_floor(old, b) == b);
        assert(boundary_floor(new, to) == to);
        assert(boundary_floor(new, upto) == upto);
        let e = events[0];
        assert(e == event_at(latched(initial_shift(origin), line_of(old, a) as int), old, new, op));
        let r = e.range->0;
        assert(offset_of(old, r.start) == a);
        assert(offset_of(old, r.end) == b);
        assert(e.text =~= new.subrange(to, upto));
        assert(old.subrange(0, a) == new.subrange(0, to));
        assert(old.subrange(b, old.len() as int) == new.subrange(upto, new.len() as int));
        assert(new =~= new.subrange(0, to) + new.subrange(to, upto) + new.subrange(
            upto,
            new.len() as int,
        ));
    }
}

/// A sequence shares all of its items with itself.
pub proof fn lemma_common_prefix_same<T>(a: Seq<T>, i: int)
    requires
        0 <= i <= a.len(),
    ensures
        common_prefix(a, a, i) == a.len(),
    decreases a.len() - i,
{
    if i < a.len() {
        lemma_common_prefix_same(a, i + 1);
    }
}

/// Up to the shared items, `a` and `b` agree item by item.
pub proof fn lemma_common_prefix<T>(a: Seq<T>, b: Seq<T>, i: int)
    requires
        0 <= i <= a.len(),
        i <= b.len(),
        forall|j: int| 0 <= j < i ==> a[j] == b[j],
    ensures
        i <= common_prefix(a, b, i) <= a.len(),
        common_prefix(a, b, i) <= b.len(),
        forall|j: int| 0 <= j < common_prefix(a, b, i) ==> a[j] == b[j],
    decreases a.len() - i,
{
    if i < a.len() && i < b.len() && a[i] == b[i] {
        lemma_common_prefix(a, b, i + 1);
    }
}

/// The shared items at the end agree, and leave the first `p` items of both
/// sequences alone.
pub proof fn lemma_common_suffix<T>(a: Seq<T>, b: Seq<T>, p: int, k: int)
    requires
        0 <= p,
        0 <= k,
        p + k <= a.len(),
        p + k <= b.len(),
        a.subrange(a.len() - k, a.len() as int) == b.subrange(b.len() - k, b.len() as int),
    ensures
        k <= common_suffix(a, b, p, k),
        p + common_suffix(a, b, p, k) <= a.len(),
        p + common_suffix(a, b, p, k) <= b.len(),
        a.subrange(a.len() - common_suffix(a, b, p, k), a.len() as int) == b.subrange(
            b.len() - common_suffix(a, b, p, k),
            b.len() as int,
        ),
    decreases a.len() - p - k,
{
    if p + k < a.len() && p + k < b.len() && a[a.len() - 1 - k] == b[b.len() - 1 - k] {
        let x = a.subrange(a.len() - k, a.len() as int);
        let y = b.subrange(b.len() - k, b.len() as int);
        let x1 = a.subrange(a.len() - k - 1, a.len() as int);
        let y1 = b.subrange(b.len() - k - 1, b.len() as int);
        assert forall|j: int| 0 <= j < k + 1 implies x1[j] == y1[j] by {
            if j > 0 {
                assert(x1[j] == x[j - 1]);
                assert(y1[j] == y[j - 1]);
            }
        }
        assert(x1 =~= y1);
        lemma_common_suffix(a, b, p, k + 1);
    }
}

/// Runs of lines that follow one another join into one run.
pub proof fn lemma_lines_text_join(s: Seq<u8>, a: int, b: int, c: int)
    requires
        0 <= a <= b <= c,
    ensures
        lines_text(s, a, b) + lines_text(s, b, c) == lines_text(s, a, c),
{
    lemma_line_starts_ordered(s, a, b);
    lemma_line_starts_ordered(s, b, c);
    assert(lines_text(s, a, b) + lines_text(s, b, c) =~= lines_text(s, a, c));
}

/// Runs of lines that agree line by line hold the same text.
pub proof fn lemma_same_lines_same_text(x: Seq<u8>, a: int, y: Seq<u8>, b: int, g: int)
    requires
        0 <= a,
        0 <= b,
        0 <= g,
        a + g <= line_total(x),
        b + g <= line_total(y),
        lines_of(x).subrange(a, a + g) == lines_of(y).subrange(b, b + g),
    ensures
        lines_text(x, a, a + g) == lines_text(y, b, b + g),
    decreases g,
{
    if g == 0 {
        lemma_line_starts_ordered(x, a, a);
        lemma_line_starts_ordered(y, b, b);
        assert(lines_text(x, a, a) =~= lines_text(y, b, b));
    } else {
        let xs = lines_of(x).subrange(a, a + g);
        let ys = lines_of(y).subrange(b, b + g);
        assert(xs[g - 1] == ys[g - 1]);
        assert(line_bytes(x, a + g - 1) == line_bytes(y, b + g - 1));
        assert(lines_of(x).subrange(a, a + g - 1) =~= xs.subrange(0, g - 1));
        assert(lines_of(y).subrange(b, b + g - 1) =~= ys.subrange(0, g - 1));
        lemma_same_lines_same_text(x, a, y, b, g - 1);
        lemma_lines_text_join(x, a, a + g - 1, a + g);
        lemma_lines_text_join(y, b, b + g - 1, b + g);
    }
}

/// All the lines of a text, joined, are the text.
pub proof fn lemma_all_lines_are_the_text(s: Seq<u8>)
    ensures
        lines_text(s, 0, line_total(s) as int) == s,
{
    lemma_line_start_past_end(s, line_total(s));
    lemma_line_start_is_break(s, 0);
    assert(lines_text(s, 0, line_total(s) as int) =~= s);
}

/// What the two texts share: the shared lines at the start and at the end
/// do not overlap, they hold the same text on both sides, and what lies
/// between them are the two windows.
pub proof fn lemma_window(old: Seq<u8>, new: Seq<u8>)
    ensures
        0 <= shared_head(old, new),
        0 <= shared_tail(old, new),
        shared_head(old, new) + shared_tail(old, new) <= line_total(old),
        shared_head(old, new) + shared_tail(old, new) <= line_total(new),
        window_old(old, new).len() == line_total(old) - shared_tail(old, new) - shared_head(
            old,
            new,
        ),
        window_new(old, new).len() == line_total(new) - shared_tail(old, new) - shared_head(
            old,
            new,
        ),
        lines_text(old, 0, shared_head(old, new)) == lines_text(new, 0, shared_head(old, new)),
        lines_text(old, line_total(old) - shared_tail(old, new), line_total(old) as int)
            == lines_text(new, line_total(new) - shared_tail(old, new), line_total(new) as int),
{
    let a = lines_of(old);
    let b = lines_of(new);
    lemma_common_prefix(a, b, 0);
    let p = shared_head(old, new);
    assert(a.subrange(a.len() - 0, a.len() as int) =~= b.subrange(b.len() - 0, b.len() as int));
    lemma_common_suffix(a, b, p, 0);
    let s = shared_tail(old, new);
    assert(a.subrange(0, p) =~= b.subrange(0, p));
    lemma_same_lines_same_text(old, 0, new, 0, p);
    lemma_same_lines_same_text(old, line_total(old) - s, new, line_total(new) - s, s);
}

/// The script that is turned into events leads from one window to the other.
pub proof fn lemma_checked_script_transforms(old: Seq<u8>, new: Seq<u8>, ops: Seq<EditOp>)
    requires
        old.len() < usize::MAX,
        new.len() < usize::MAX,
    ensures
        transforms(
            checked_script(ops, window_old(old, new), window_new(old, new)),
            window_old(old, new),
            window_new(old, new),
        ),
{
    lemma_window(old, new);
    lemma_breaks_bounded(old, old.len() as int);
    lemma_breaks_bounded(new, new.len() as int);
    lemma_whole_script_transforms(window_old(old, new), window_new(old, new));
}

/// The steps of a well-formed script lie in rising order within the old
/// sequence, each one behind the cursor from which the script continues.
pub proof fn lemma_steps_ordered(
    script: Seq<EditOp>,
    k: int,
    oc: int,
    nc: int,
    m: int,
    n: int,
    i: int,
    j: int,
)
    requires
        0 <= k <= i <= j < script.len(),
        well_formed_from(script, k, oc, nc, m, n),
    ensures
        oc <= script[i].old_start() <= script[i].old_end() <= m,
        k > 0 ==> oc < script[i].old_start(),
        i < j ==> script[i].old_end() < script[j].old_start(),
        script[i].has_effect(),
    decreases script.len() - k,
{
    if k < i {
        lemma_steps_ordered(
            script,
            k + 1,
            script[k].old_end(),
            script[k].new_end(oc, nc),
            m,
            n,
            i,
            j,
        );
    } else if i < j {
        lemma_steps_ordered(
            script,
            k + 1,
            script[k].old_end(),
            script[k].new_end(oc, nc),
            m,
            n,
            j,
            j,
        );
    }
}

/// A line that is not the last one is not empty, and a terminator ends it.
pub proof fn lemma_inner_line(s: Seq<u8>, l: int)
    requires
        0 <= l < line_breaks(s),
    ensures
        0 <= line_start(s, l as nat) < line_start(s, (l + 1) as nat) <= s.len(),
        break_ends_at(s, line_start(s, (l + 1) as nat)),
        l > 0 ==> break_ends_at(s, line_start(s, l as nat)),
{
    lemma_line_start_is_break(s, l as nat);
    lemma_line_start_is_break(s, (l + 1) as nat);
    lemma_line_starts_ordered(s, l, l + 1);
}

/// No terminator ends at the end of a text whose last line is not empty.
pub proof fn lemma_last_line(s: Seq<u8>)
    ensures
        line_start(s, line_breaks(s)) < s.len() ==> !break_ends_at(s, s.len() as int),
{
    let e = line_start(s, line_breaks(s));
    lemma_line_start_is_break(s, line_breaks(s));
    if e < s.len() {
        lemma_breaks_monotone(s, e, s.len() - 1);
    }
}

/// The last line of a text is never the same as a line of another text
/// that is not its last one.
pub proof fn lemma_last_line_differs(x: Seq<u8>, y: Seq<u8>, l: int)
    requires
        0 <= l < line_breaks(y),
    ensures
        line_bytes(x, line_breaks(x) as int) != line_bytes(y, l),
{
    let a = line_bytes(x, line_breaks(x) as int);
    let b = line_bytes(y, l);
    let i0 = line_start(y, l as nat);
    let j = line_start(y, (l + 1) as nat);
    let e = line_start(x, line_breaks(x));
    lemma_inner_line(y, l);
    lemma_last_line(x);
    lemma_line_start_past_end(x, line_total(x));
    lemma_line_starts_ordered(x, line_breaks(x) as int, line_total(x) as int);
    if a == b {
        assert(a.len() == x.len() - e);
        assert(b.len() == j - i0);
        assert(e < x.len());
        let n = x.len() as int;
        assert(a[a.len() - 1] == x[n - 1]);
        assert(b[b.len() - 1] == y[j - 1]);
        if y[j - 1] == 0x0A || y[j - 1] == 0x0D {
            assert(break_ends_at(x, n));
        } else if j >= 2 && y[j - 2] == 0xC2 && y[j - 1] == 0x85 {
            assert(i0 <= j - 2);
            assert(a[a.len() - 2] == x[n - 2]);
            assert(b[b.len() - 2] == y[j - 2]);
            assert(break_ends_at(x, n));
        } else {
            assert(j >= 3 && y[j - 3] == 0xE2 && y[j - 2] == 0x80);
            assert(i0 <= j - 3);
            assert(a[a.len() - 2] == x[n - 2]);
            assert(b[b.len() - 2] == y[j - 2]);
            assert(a[a.len() - 3] == x[n - 3]);
            assert(b[b.len() - 3] == y[j - 3]);
            assert(break_ends_at(x, n));
        }
    }
}

/// A script that leads from `old` to `new` does so from each of its steps on.
pub proof fn lemma_transforms_from<T>(script: Seq<EditOp>, old: Seq<T>, new: Seq<T>, i: int)
    requires
        transforms(script, old, new),
        0 <= i <= script.len(),
    ensures
        well_formed_from(
            script,
            i,
            old_cursor(script, i),
            new_cursor(script, i),
            old.len() as int,
            new.len() as int,
        ),
        gaps_agree_from(script, i, old_cursor(script, i), new_cursor(script, i), old, new),
        0 <= old_cursor(script, i),
        0 <= new_cursor(script, i),
    decreases i,
{
    if i > 0 {
        lemma_transforms_from(script, old, new, i - 1);
    }
}

/// A later byte offset lies on a later line, or on the same line at a column
/// that is not smaller.
pub proof fn lemma_position_monotone(s: Seq<u8>, a: int, b: int)
    requires
        0 <= a <= b,
    ensures
        line_of(s, a) < line_of(s, b) || (line_of(s, a) == line_of(s, b) && column_of(s, a)
            <= column_of(s, b)),
{
    lemma_floor_monotone(s, a, b);
    lemma_breaks_monotone(s, boundary_floor(s, a), boundary_floor(s, b));
}

/// Two numbers less than 2^64 apart stay apart when wrapped.
pub proof fn lemma_wrap_apart(x: int, y: int)
    requires
        x != y,
        -0x1_0000_0000_0000_0000 < x - y < 0x1_0000_0000_0000_0000,
    ensures
        wrap(x) != wrap(y),
{
}

/// Two different character boundaries are different positions.
pub proof fn lemma_positions_differ(s: Seq<u8>, a: int, b: int)
    requires
        valid_utf8(s),
        0 <= a < b <= s.len(),
        is_char_boundary(s, a),
        is_char_boundary(s, b),
    ensures
        line_of(s, a) != line_of(s, b) || column_of(s, a) != column_of(s, b),
        0 <= line_of(s, a) <= s.len(),
        0 <= line_of(s, b) <= s.len(),
        0 <= column_of(s, a) <= s.len(),
        0 <= column_of(s, b) <= s.len(),
{
    is_char_boundary_start_end_of_seq(s);
    lemma_breaks_bounded(s, a);
    lemma_breaks_bounded(s, b);
    lemma_line_start_is_break(s, 0);
    lemma_line_starts_ordered(s, line_of(s, a) as int, line_of(s, a) as int);
    lemma_line_starts_ordered(s, line_of(s, b) as int, line_of(s, b) as int);
    lemma_line_of_start(s, a);
    lemma_line_of_start(s, b);
}

/// Every step of a well-formed script names new items within the new sequence.
pub proof fn lemma_well_formed_new_in_range(
    script: Seq<EditOp>,
    k: int,
    oc: int,
    nc: int,
    m: int,
    n: int,
    i: int,
)
    requires
        0 <= k <= i < script.len(),
        0 <= nc,
        0 <= oc,
        well_formed_from(script, k, oc, nc, m, n),
    ensures
        match script[i] {
            EditOp::Delete { .. } => true,
            EditOp::Insert { new, new_len, .. } => new + new_len <= n && new_len > 0,
            EditOp::Replace { new, new_len, .. } => new + new_len <= n && new_len > 0,
        },
    decreases script.len() - k,
{
    if k < i {
        lemma_well_formed_new_in_range(
            script,
            k + 1,
            script[k].old_end(),
            script[k].new_end(oc, nc),
            m,
            n,
            i,
        );
    }
}

/// A position counts as many bytes from the start of the text as the byte
/// offset that it stands for, rounded down to a character boundary.
pub proof fn lemma_position_offset(s: Seq<u8>, b: int)
    requires
        0 <= b <= s.len(),
        s.len() < usize::MAX,
    ensures
        offset_of(
            s,
            placed(
                initial_shift(Position { line: 0, character: 0 }),
                line_of(s, b) as int,
                column_of(s, b),
            ),
        ) == boundary_floor(s, b),
        offset_of(
            s,
            placed(
                latched(initial_shift(Position { line: 0, character: 0 }), line_of(s, b) as int),
                line_of(s, b) as int,
                column_of(s, b),
            ),
        ) == boundary_floor(s, b),
{
    lemma_floor_bounds(s, b);
    lemma_breaks_bounded(s, boundary_floor(s, b));
    lemma_line_of_start(s, boundary_floor(s, b));
    lemma_line_starts_ordered(s, line_of(s, b) as int, line_of(s, b) as int);
}

/// What a step of the script is sure of: it lies within both windows, the
/// lines between the step before it and itself are the same on both sides,
/// and it begins as far behind the one as behind the other.
pub proof fn lemma_step_facts(old: Seq<u8>, new: Seq<u8>, ops: Seq<EditOp>, k: int)
    requires
        old.len() < usize::MAX,
        new.len() < usize::MAX,
        0 <= k < full_script(old, new, ops).len(),
    ensures
        ({
            let script = full_script(old, new, ops);
            let p = shared_head(old, new);
            let oc = old_cursor(script, k);
            let nc = new_cursor(script, k);
            let at = script[k].old_start();
            let to = step_start(script, k);
            &&& 0 <= oc <= at
            &&& 0 <= nc <= to
            &&& at - oc == to - nc
            &&& k > 0 ==> at > oc
            &&& script[k].has_effect()
            &&& at + script[k].old_count() <= window_old(old, new).len()
            &&& to + script[k].new_count() <= window_new(old, new).len()
            &&& old_cursor(script, k + 1) == at + script[k].old_count()
            &&& new_cursor(script, k + 1) == to + script[k].new_count()
            &&& lines_text(old, p + oc, p + at) == lines_text(new, p + nc, p + to)
            &&& p + at > 0 || p + to > 0 ==> p + at > 0 && p + to > 0 && lines_of(old)[p + at - 1]
                == lines_of(new)[p + to - 1]
        }),
{
    let script = full_script(old, new, ops);
    let p = shared_head(old, new);
    let wo = window_old(old, new);
    let wn = window_new(old, new);
    let oc = old_cursor(script, k);
    let nc = new_cursor(script, k);
    let at = script[k].old_start();
    let to = step_start(script, k);
    lemma_window(old, new);
    lemma_checked_script_transforms(old, new, ops);
    lemma_transforms_from(script, wo, wn, k);
    lemma_transforms_from(script, wo, wn, k + 1);
    lemma_common_prefix(lines_of(old), lines_of(new), 0);
    let g = at - oc;
    assert(lines_of(old).subrange(p + oc, p + oc + g) =~= wo.subrange(oc, at));
    assert(lines_of(new).subrange(p + nc, p + nc + g) =~= wn.subrange(nc, to));
    lemma_same_lines_same_text(old, p + oc, new, p + nc, g);
    if g > 0 {
        let x = wo.subrange(oc, at);
        let y = wn.subrange(nc, to);
        assert(x[g - 1] == y[g - 1]);
        assert(lines_of(old)[p + at - 1] == lines_of(new)[p + to - 1]);
    }
}

/// No step of the script begins behind the last line of a text: the last
/// line of the one text is never the same as an inner line of the other.
pub proof fn lemma_step_before_last(old: Seq<u8>, new: Seq<u8>, ops: Seq<EditOp>, k: int)
    requires
        old.len() < usize::MAX,
        new.len() < usize::MAX,
        0 <= k < full_script(old, new, ops).len(),
    ensures
        0 <= old_line(old, new, ops, k) <= line_breaks(old),
        0 <= new_line(old, new, ops, k) <= line_breaks(new),
{
    let script = full_script(old, new, ops);
    let p = shared_head(old, new);
    let at = script[k].old_start();
    let to = step_start(script, k);
    lemma_window(old, new);
    lemma_step_facts(old, new, ops, k);
    if p + at > line_breaks(old) {
        lemma_last_line_differs(old, new, p + to - 1);
    }
    if p + to > line_breaks(new) {
        lemma_last_line_differs(new, old, p + at - 1);
    }
}

/// Where a step of the script begins, the new text up to it and the old
/// text from it on are joined at the start of a line of both.
pub proof fn lemma_step_seam(old: Seq<u8>, new: Seq<u8>, ops: Seq<EditOp>, k: int)
    requires
        old.len() < usize::MAX,
        new.len() < usize::MAX,
        0 <= k < full_script(old, new, ops).len(),
    ensures
        ({
            let a = line_start(new, new_line(old, new, ops, k) as nat);
            let b = line_start(old, old_line(old, new, ops, k) as nat);
            &&& 0 <= a <= new.len()
            &&& 0 <= b <= old.len()
            &&& same_line_start(new, a, old, b)
            &&& breaks_upto(new, a) == new_line(old, new, ops, k)
            &&& breaks_upto(old, b) == old_line(old, new, ops, k)
            &&& partly(old, new, ops, k) == spliced(new, a, old, b)
        }),
{
    let script = full_script(old, new, ops);
    let p = shared_head(old, new);
    let oc = old_cursor(script, k);
    let nc = new_cursor(script, k);
    let at = script[k].old_start();
    let to = step_start(script, k);
    let a = line_start(new, (p + to) as nat);
    let b = line_start(old, (p + at) as nat);
    lemma_window(old, new);
    lemma_step_facts(old, new, ops, k);
    lemma_step_before_last(old, new, ops, k);
    lemma_line_start_is_break(new, (p + to) as nat);
    lemma_line_start_is_break(old, (p + at) as nat);
    lemma_line_starts_ordered(new, p + nc, p + to);
    lemma_line_starts_ordered(old, p + oc, p + at);
    lemma_line_starts_ordered(new, 0, p + nc);
    lemma_line_starts_ordered(old, 0, p + oc);
    if p + to > 0 {
        lemma_inner_line(new, p + to - 1);
        lemma_inner_line(old, p + at - 1);
        let x = line_bytes(new, p + to - 1);
        let y = line_bytes(old, p + at - 1);
        assert(x == y);
        assert(x[x.len() - 1] == new[a - 1]);
        assert(y[y.len() - 1] == old[b - 1]);
    }
    assert(partly(old, new, ops, k) =~= spliced(new, a, old, b)) by {
        let a0 = line_start(new, (p + nc) as nat);
        let b0 = line_start(old, (p + oc) as nat);
        assert(new.subrange(a0, a) == old.subrange(b0, b));
        assert(new.subrange(0, a) =~= new.subrange(0, a0) + new.subrange(a0, a));
        assert(old.subrange(b0, old.len() as int) =~= old.subrange(b0, b) + old.subrange(
            b,
            old.len() as int,
        ));
    }
}

/// One step in the document as it then stands: the event for step `k`
/// lies in the document that the steps before it have left, and it leaves
/// the document of the steps up to and including it.
pub proof fn lemma_step_applies(old: Seq<u8>, new: Seq<u8>, ops: Seq<EditOp>, k: int)
    requires
        old.len() + new.len() + 2 <= usize::MAX,
        0 <= k < full_script(old, new, ops).len(),
        full_events(old, new, ops).len() == full_script(old, new, ops).len(),
    ensures
        ({
            let doc = partly(old, new, ops, k);
            let e = full_events(old, new, ops)[k];
            &&& e.range is Some
            &&& e.range->0.start.line == new_line(old, new, ops, k)
            &&& e.range->0.end.line == new_line(old, new, ops, k) + full_script(
                old,
                new,
                ops,
            )[k].old_count()
            &&& e.range->0.start.character == 0
            &&& e.range->0.end.character == 0
            &&& 0 <= offset_of(doc, e.range->0.start) <= offset_of(doc, e.range->0.end)
                <= doc.len()
            &&& e.range->0.end.line <= line_total(doc)
            &&& apply_event(doc, e) == partly(old, new, ops, k + 1)
        }),
{
    let script = full_script(old, new, ops);
    let p = shared_head(old, new);
    let op = script[k];
    let at = op.old_start();
    let to = step_start(script, k);
    let count = op.old_count();
    let a = line_start(new, (p + to) as nat);
    let b = line_start(old, (p + at) as nat);
    let doc = partly(old, new, ops, k);
    let e = full_events(old, new, ops)[k];
    lemma_window(old, new);
    lemma_breaks_bounded(old, old.len() as int);
    lemma_breaks_bounded(new, new.len() as int);
    lemma_step_facts(old, new, ops, k);
    lemma_step_before_last(old, new, ops, k);
    lemma_step_seam(old, new, ops, k);
    assert(e == line_event(new, p, op, to));
    let r = e.range->0;
    lemma_splice_line_start(new, a, old, b, 0);
    lemma_splice_line_start(new, a, old, b, count as nat);
    lemma_splice_tail(new, a, old, b, old.len() - b);
    let upto = line_start(old, (p + at + count) as nat);
    assert(offset_of(doc, r.start) == a);
    assert(offset_of(doc, r.end) == a + upto - b);
    let into = line_start(new, (p + to + op.new_count()) as nat);
    lemma_line_starts_ordered(new, p + to, p + to + op.new_count());
    assert(e.text =~= new.subrange(a, into));
    assert(doc.subrange(0, a) =~= new.subrange(0, a));
    assert(doc.subrange(a + upto - b, doc.len() as int) =~= old.subrange(upto, old.len() as int));
    assert(apply_event(doc, e) =~= spliced(new, into, old, upto));
}

/// The events of a line-level diff, applied one after the other, leave
/// after each step the document of the steps so far.
pub proof fn lemma_steps_apply(old: Seq<u8>, new: Seq<u8>, ops: Seq<EditOp>, k: int)
    requires
        old.len() + new.len() + 2 <= usize::MAX,
        0 <= k <= full_script(old, new, ops).len(),
        full_events(old, new, ops).len() == full_script(old, new, ops).len(),
    ensures
        applied_first(old, full_events(old, new, ops), k) == partly(old, new, ops, k),
    decreases k,
{
    let p = shared_head(old, new);
    if k == 0 {
        lemma_window(old, new);
        lemma_line_starts_ordered(old, 0, p);
        lemma_line_starts_ordered(new, 0, p);
        lemma_line_start_is_break(old, 0);
        lemma_line_start_is_break(new, 0);
        assert(partly(old, new, ops, 0) =~= old);
    } else {
        lemma_steps_apply(old, new, ops, k - 1);
        lemma_step_applies(old, new, ops, k - 1);
    }
}

/// When all steps of the script are done, the document is the new text.
pub proof fn lemma_all_steps_done(old: Seq<u8>, new: Seq<u8>, ops: Seq<EditOp>)
    requires
        old.len() < usize::MAX,
        new.len() < usize::MAX,
    ensures
        partly(old, new, ops, full_script(old, new, ops).len() as int) == new,
{
    let script = full_script(old, new, ops);
    let p = shared_head(old, new);
    let s = shared_tail(old, new);
    let m = line_total(old) as int;
    let n = line_total(new) as int;
    let wo = window_old(old, new);
    let wn = window_new(old, new);
    let k = script.len() as int;
    let oc = old_cursor(script, k);
    let nc = new_cursor(script, k);
    lemma_window(old, new);
    lemma_checked_script_transforms(old, new, ops);
    lemma_transforms_from(script, wo, wn, k);
    let g = wo.len() - oc;
    assert(lines_of(old).subrange(p + oc, p + oc + g) =~= wo.subrange(oc, wo.len() as int));
    assert(lines_of(new).subrange(p + nc, p + nc + g) =~= wn.subrange(nc, wn.len() as int));
    lemma_same_lines_same_text(old, p + oc, new, p + nc, g);
    lemma_lines_text_join(old, p + oc, m - s, m);
    lemma_lines_text_join(new, p + nc, n - s, n);
    lemma_lines_text_join(new, 0, p + nc, n);
    lemma_all_lines_are_the_text(new);
    lemma_line_start_past_end(old, m as nat);
    lemma_line_start_past_end(new, n as nat);
    lemma_line_start_is_break(new, 0);
    lemma_line_starts_ordered(new, 0, p + nc);
    lemma_line_starts_ordered(new, p + nc, n);
    lemma_line_starts_ordered(old, p + oc, m);
    assert(lines_text(old, p + oc, m) =~= old.subrange(
        line_start(old, (p + oc) as nat),
        old.len() as int,
    ));
    assert(partly(old, new, ops, k) =~= lines_text(new, 0, p + nc) + lines_text(new, p + nc, n));
}

/// In a script that leads from one sequence to another, a later step begins
/// in the new sequence behind where an earlier step ends there.
pub proof fn lemma_starts_rise<T>(script: Seq<EditOp>, old: Seq<T>, new: Seq<T>, i: int, j: int)
    requires
        transforms(script, old, new),
        0 <= i < j < script.len(),
    ensures
        step_start(script, i) + script[i].new_count() < step_start(script, j),
    decreases j - i,
{
    lemma_transforms_from(script, old, new, j);
    lemma_transforms_from(script, old, new, j - 1);
    if i < j - 1 {
        lemma_starts_rise(script, old, new, i, j - 1);
    }
}

/// Rounding down ends at a character boundary.
pub proof fn lemma_floor_is_boundary(s: Seq<u8>, a: int)
    requires
        valid_utf8(s),
    ensures
        is_char_boundary(s, boundary_floor(s, a)),
    decreases a,
{
    is_char_boundary_start_end_of_seq(s);
    if a > 0 && !is_char_boundary(s, a) {
        lemma_floor_is_boundary(s, a - 1);
    }
}

} // verus!
