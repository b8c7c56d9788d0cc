//! The character-level differ: change events for the rewrite of a piece of
//! a document, positioned in the document as it stands when each event is
//! applied.

use vstd::prelude::*;
use vstd::string::*;
use vstd::utf8::*;

use crate::event::{
    changes_new, changes_push, ChangeEvent, Changes, EventView, LspPosition, LspRange,
};
use crate::script::{
    is_well_formed, leaves_equal_bytes, lemma_whole_script_transforms, myers, myers_script,
    transforms, well_formed, well_formed_from, whole, whole_script, widen, widened, EditOp,
};
use crate::text::{
    boundary_floor, column_of, count_line_breaks, is_line_table, last_line_len,
    last_line_length, lemma_floor_bounds, lemma_floor_monotone, line_breaks, line_of,
    line_starts, position_in, pre_char_boundary, str_eq, substr, Position,
};

verus! {

/// A piece of text together with the position in the document at which its
/// first character stands.
#[derive(Clone, Copy, Debug)]
pub struct RopeSlice<'a> {
    pub slice: &'a str,
    /// The position that this slice was created at.
    pub absolute_pos: Position,
}

/// What has to be added to a position in the old piece to find the same place
/// in the document after the events so far: lines, characters within the
/// line of the latest event, and that line.
pub struct Shift {
    pub line_offset: int,
    pub char_offset: int,
    pub on_line: int,
}

/// `x` as the protocol's unsigned 64-bit number, wrapped around.
pub open spec fn wrap(x: int) -> u64 {
    (x % 0x1_0000_0000_0000_0000) as u64
}

/// The shift before the first event: the position of the piece.
pub open spec fn initial_shift(anchor: Position) -> Shift {
    Shift { line_offset: anchor.line as int, char_offset: anchor.character as int, on_line: 0 }
}

/// The shift when the next event begins on line `line` of the old piece: on
/// another line than the latest event, the characters shifted are forgotten.
pub open spec fn latched(st: Shift, line: int) -> Shift {
    if line != st.on_line {
        Shift { line_offset: st.line_offset, char_offset: 0, on_line: line }
    } else {
        st
    }
}

/// The place in the document of line `line`, column `column` of the old piece.
pub open spec fn placed(st: Shift, line: int, column: int) -> LspPosition {
    LspPosition { line: wrap(st.line_offset + line), character: wrap(st.char_offset + column) }
}

/// The text that a step brings in: the bytes of `new` that the step names,
/// both ends rounded down to a character boundary.
pub open spec fn step_text(new: Seq<u8>, op: EditOp) -> Seq<u8> {
    match op {
        EditOp::Delete { .. } => Seq::empty(),
        EditOp::Insert { new: at, new_len, .. } => new.subrange(
            boundary_floor(new, at as int),
            boundary_floor(new, at + new_len),
        ),
        EditOp::Replace { new: at, new_len, .. } => new.subrange(
            boundary_floor(new, at as int),
            boundary_floor(new, at + new_len),
        ),
    }
}

/// The event for the step `op`, the shift `st` being the one latched to the
/// line on which the step begins.
pub open spec fn event_at(st: Shift, old: Seq<u8>, new: Seq<u8>, op: EditOp) -> EventView {
    let start = placed(st, line_of(old, op.old_start()) as int, column_of(old, op.old_start()));
    let end = placed(st, line_of(old, op.old_end()) as int, column_of(old, op.old_end()));
    EventView {
        range: Some(
            LspRange {
                start,
                end: if op is Insert {
                    start
                } else {
                    end
                },
            },
        ),
        range_length: if op is Insert {
            Some(0u64)
        } else {
            None
        },
        text: step_text(new, op),
    }
}

/// The shift after the step `op`, the shift `st` being the one latched to the
/// line on which the step begins.
pub open spec fn moved(st: Shift, old: Seq<u8>, new: Seq<u8>, op: EditOp) -> Shift {
    let sl = line_of(old, op.old_start()) as int;
    let sc = column_of(old, op.old_start());
    let el = line_of(old, op.old_end()) as int;
    let ec = column_of(old, op.old_end());
    let text = step_text(new, op);
    let k = line_breaks(text) as int;
    match op {
        EditOp::Delete { .. } => Shift {
            line_offset: st.line_offset - (el - sl),
            char_offset: st.char_offset - (ec - sc),
            on_line: st.on_line,
        },
        EditOp::Insert { .. } => Shift {
            line_offset: st.line_offset + k,
            char_offset: if k > 0 {
                last_line_len(text) - sl
            } else {
                st.char_offset + text.len()
            },
            on_line: st.on_line,
        },
        EditOp::Replace { .. } => Shift {
            line_offset: st.line_offset + k - (el - sl),
            char_offset: if k > 0 {
                last_line_len(text) - ec
            } else {
                st.char_offset + text.len() + sc - ec
            },
            on_line: st.on_line,
        },
    }
}

/// The shift after the first `k` steps of `ops`.
pub open spec fn shift_after(
    anchor: Position,
    old: Seq<u8>,
    new: Seq<u8>,
    ops: Seq<EditOp>,
    k: int,
) -> Shift
    decreases k,
{
    if k <= 0 {
        initial_shift(anchor)
    } else {
        let op = ops[k - 1];
        moved(
            latched(shift_after(anchor, old, new, ops, k - 1), line_of(old, op.old_start()) as int),
            old,
            new,
            op,
        )
    }
}

/// The event for step `k` of `ops`.
pub open spec fn char_event(
    anchor: Position,
    old: Seq<u8>,
    new: Seq<u8>,
    ops: Seq<EditOp>,
    k: int,
) -> EventView {
    event_at(
        latched(shift_after(anchor, old, new, ops, k), line_of(old, ops[k].old_start()) as int),
        old,
        new,
        ops[k],
    )
}

/// The events for the steps of `ops`, in order.
pub open spec fn char_events(anchor: Position, old: Seq<u8>, new: Seq<u8>, ops: Seq<EditOp>) -> Seq<
    EventView,
> {
    Seq::new(ops.len(), |k: int| char_event(anchor, old, new, ops, k))
}

/// The script that is turned into events: `ops` where it is a script from
/// `old` to `new`, well-formed and leaving alone only bytes that are the
/// same on both sides, else the exchange of everything.
pub open spec fn usable_script(ops: Seq<EditOp>, old: Seq<u8>, new: Seq<u8>) -> Seq<EditOp> {
    if transforms(ops, old, new) {
        ops
    } else {
        whole_script(old.len() as usize, new.len() as usize)
    }
}

/// The events of the character-level diff of the piece `old`, which stands
/// at `anchor`, and `new`, given the script `ops` that a comparison of their
/// bytes reported. Equal texts give no event.
pub open spec fn incremental_events(
    anchor: Position,
    old: Seq<u8>,
    new: Seq<u8>,
    ops: Seq<EditOp>,
) -> Seq<EventView> {
    if old == new {
        Seq::empty()
    } else {
        char_events(anchor, old, new, usable_script(ops, old, new))
    }
}

/// Adding to a wrapped number is wrapping the sum.
pub proof fn lemma_wrap_add(a: int, b: u64)
    ensures
        wrap(a).wrapping_add(b) == wrap(a + b),
{
}

/// Taking from a wrapped number is wrapping the difference.
pub proof fn lemma_wrap_sub(a: int, b: u64)
    ensures
        wrap(a).wrapping_sub(b) == wrap(a - b),
{
}

/// A wrapped number moved on by `plus` and back by `minus`.
fn shifted_by(x: u64, Ghost(ideal): Ghost<int>, plus: usize, minus: usize) -> (r: u64)
    requires
        x == wrap(ideal),
    ensures
        r == wrap(ideal + plus - minus),
{
    proof {
        lemma_wrap_add(ideal, plus as u64);
        lemma_wrap_sub(ideal + plus, minus as u64);
    }
    x.wrapping_add(plus as u64).wrapping_sub(minus as u64)
}

/// The difference of two lengths, wrapped.
fn wrapped_difference(a: usize, b: usize) -> (r: u64)
    ensures
        r == wrap(a - b),
{
    proof {
        lemma_wrap_sub(a as int, b as u64);
    }
    (a as u64).wrapping_sub(b as u64)
}

/// The state of one character-level diff: the events so far, the two texts,
/// and the running shift, kept as wrapped 64-bit numbers.
pub struct Incremental<'o, 'n> {
    changes: Changes,
    old: RopeSlice<'o>,
    old_starts: Vec<usize>,
    new: &'n str,
    char_offset: u64,
    line_offset: u64,
    on_line: usize,
    shift: Ghost<Shift>,
}

impl<'o, 'n> Incremental<'o, 'n> {
    /// The line starts of the old piece are known, and the numbers kept
    /// are the shift, wrapped.
    pub closed spec fn wf(&self) -> bool {
        &&& is_line_table(self.old_starts@, self.old.slice.spec_bytes())
        &&& self.line_offset == wrap(self.shift@.line_offset)
        &&& self.char_offset == wrap(self.shift@.char_offset)
        &&& self.on_line == self.shift@.on_line
    }

    /// The same texts and the same events.
    pub closed spec fn same_but_shift(&self, other: &Self) -> bool {
        &&& self.old == other.old
        &&& self.old_starts == other.old_starts
        &&& self.new == other.new
        &&& self.changes == other.changes
    }

    /// Begins a step at byte `at` of the old piece: finds its line and
    /// column there, and forgets the characters shifted on another line.
    fn begin(&mut self, at: usize) -> (start: Position)
        requires
            old(self).wf(),
            at <= old(self).old.slice.spec_bytes().len(),
        ensures
            final(self).wf(),
            final(self).same_but_shift(old(self)),
            start.line == line_of(old(self).old.slice.spec_bytes(), at as int),
            start.character == column_of(old(self).old.slice.spec_bytes(), at as int),
            final(self).shift@ == latched(old(self).shift@, start.line as int),
    {
        let start = position_in(self.old.slice, &self.old_starts, at);
        if start.line != self.on_line {
            self.on_line = start.line;
            self.char_offset = 0;
            self.shift = Ghost(latched(self.shift@, start.line as int));
        }
        start
    }

    /// The place in the document of a position in the old piece.
    fn place(&self, p: Position) -> (r: LspPosition)
        requires
            self.wf(),
        ensures
            r == placed(self.shift@, p.line as int, p.character as int),
    {
        proof {
            lemma_wrap_add(self.shift@.line_offset, p.line as u64);
            lemma_wrap_add(self.shift@.char_offset, p.character as u64);
        }
        LspPosition {
            line: self.line_offset.wrapping_add(p.line as u64),
            character: self.char_offset.wrapping_add(p.character as u64),
        }
    }

    /// The bytes of the new text from `to` on, `len` of them, both ends
    /// rounded down to a character boundary.
    fn text(&self, to: usize, len: usize) -> (r: &'n str)
        requires
            to + len <= self.new.spec_bytes().len(),
        ensures
            r.spec_bytes() == self.new.spec_bytes().subrange(
                boundary_floor(self.new.spec_bytes(), to as int),
                boundary_floor(self.new.spec_bytes(), to + len),
            ),
    {
        let limit = self.new.as_bytes().len();
        let from = pre_char_boundary(self.new, to);
        let upto = pre_char_boundary(self.new, to + len);
        proof {
            lemma_floor_monotone(self.new.spec_bytes(), to as int, to + len);
            lemma_floor_bounds(self.new.spec_bytes(), to + len);
        }
        substr(self.new, from, upto)
    }

    /// Adds an event to the batch.
    fn push(&mut self, event: ChangeEvent)
        ensures
            final(self).old == old(self).old,
            final(self).old_starts == old(self).old_starts,
            final(self).new == old(self).new,
            final(self).char_offset == old(self).char_offset,
            final(self).line_offset == old(self).line_offset,
            final(self).on_line == old(self).on_line,
            final(self).shift == old(self).shift,
            final(self).changes.batch() == old(self).changes.batch().push(event@),
    {
        let ghost before = self.changes;
        changes_push(&mut self.changes, event);
        assert(self.changes.batch() =~= before.batch().push(event@));
    }

    /// Records the deletion of `len` bytes of the old piece from byte `at` on.
    fn delete(&mut self, at: usize, len: usize)
        requires
            old(self).wf(),
            at + len <= old(self).old.slice.spec_bytes().len(),
        ensures
            final(self).wf(),
            final(self).old == old(self).old,
            final(self).new == old(self).new,
            final(self).changes.batch() == old(self).changes.batch().push(
                event_at(
                    latched(
                        old(self).shift@,
                        line_of(old(self).old.slice.spec_bytes(), at as int) as int,
                    ),
                    old(self).old.slice.spec_bytes(),
                    old(self).new.spec_bytes(),
                    EditOp::Delete { old: at, len },
                ),
            ),
            final(self).shift@ == moved(
                latched(
                    old(self).shift@,
                    line_of(old(self).old.slice.spec_bytes(), at as int) as int,
                ),
                old(self).old.slice.spec_bytes(),
                old(self).new.spec_bytes(),
                EditOp::Delete { old: at, len },
            ),
    {
        let ghost op = EditOp::Delete { old: at, len };
        let limit = self.old.slice.as_bytes().len();
        let start = self.begin(at);
        let end = position_in(self.old.slice, &self.old_starts, at + len);
        let event = ChangeEvent {
            range: Some(LspRange { start: self.place(start), end: self.place(end) }),
            range_length: None,
            text: String::new(),
        };
        assert(encode_utf8(event.text@) =~= Seq::<u8>::empty());
        self.push(event);
        let ghost st = self.shift@;
        self.line_offset = shifted_by(
            self.line_offset,
            Ghost(st.line_offset),
            start.line,
            end.line,
        );
        self.char_offset = shifted_by(
            self.char_offset,
            Ghost(st.char_offset),
            start.character,
            end.character,
        );
        self.shift = Ghost(moved(st, self.old.slice.spec_bytes(), self.new.spec_bytes(), op));
    }

    /// Records the insertion of `new_len` bytes of the new text, from byte
    /// `to` on, before byte `at` of the old piece.
    fn insert(&mut self, at: usize, to: usize, new_len: usize)
        requires
            old(self).wf(),
            at <= old(self).old.slice.spec_bytes().len(),
            to + new_len <= old(self).new.spec_bytes().len(),
        ensures
            final(self).wf(),
            final(self).old == old(self).old,
            final(self).new == old(self).new,
            final(self).changes.batch() == old(self).changes.batch().push(
                event_at(
                    latched(
                        old(self).shift@,
                        line_of(old(self).old.slice.spec_bytes(), at as int) as int,
                    ),
                    old(self).old.slice.spec_bytes(),
                    old(self).new.spec_bytes(),
                    EditOp::Insert { old: at, new: to, new_len },
                ),
            ),
            final(self).shift@ == moved(
                latched(
                    old(self).shift@,
                    line_of(old(self).old.slice.spec_bytes(), at as int) as int,
                ),
                old(self).old.slice.spec_bytes(),
                old(self).new.spec_bytes(),
                EditOp::Insert { old: at, new: to, new_len },
            ),
    {
        let ghost op = EditOp::Insert { old: at, new: to, new_len };
        let start = self.begin(at);
        let place = self.place(start);
        let text = self.text(to, new_len);
        let text_len = text.as_bytes().len();
        let event = ChangeEvent {
            range: Some(LspRange { start: place, end: place }),
            range_length: Some(0),
            text: text.to_owned(),
        };
        self.push(event);
        let ghost st = self.shift@;
        let k = count_line_breaks(text);
        self.line_offset = shifted_by(self.line_offset, Ghost(st.line_offset), k, 0);
        if k > 0 {
            self.char_offset = wrapped_difference(last_line_length(text), start.line);
        } else {
            self.char_offset = shifted_by(self.char_offset, Ghost(st.char_offset), text_len, 0);
        }
        self.shift = Ghost(moved(st, self.old.slice.spec_bytes(), self.new.spec_bytes(), op));
    }

    /// Records the replacement of `old_len` bytes of the old piece, from
    /// byte `at` on, by `new_len` bytes of the new text, from byte `to` on.
    fn replace(&mut self, at: usize, old_len: usize, to: usize, new_len: usize)
        requires
            old(self).wf(),
            at + old_len <= old(self).old.slice.spec_bytes().len(),
            to + new_len <= old(self).new.spec_bytes().len(),
        ensures
            final(self).wf(),
            final(self).old == old(self).old,
            final(self).new == old(self).new,
            final(self).changes.batch() == old(self).changes.batch().push(
                event_at(
                    latched(
                        old(self).shift@,
                        line_of(old(self).old.slice.spec_bytes(), at as int) as int,
                    ),
                    old(self).old.slice.spec_bytes(),
                    old(self).new.spec_bytes(),
                    EditOp::Replace { old: at, old_len, new: to, new_len },
                ),
            ),
            final(self).shift@ == moved(
                latched(
                    old(self).shift@,
                    line_of(old(self).old.slice.spec_bytes(), at as int) as int,
                ),
                old(self).old.slice.spec_bytes(),
                old(self).new.spec_bytes(),
                EditOp::Replace { old: at, old_len, new: to, new_len },
            ),
    {
        let ghost op = EditOp::Replace { old: at, old_len, new: to, new_len };
        let limit = self.old.slice.as_bytes().len();
        let start = self.begin(at);
        let end = position_in(self.old.slice, &self.old_starts, at + old_len);
        let text = self.text(to, new_len);
        let text_len = text.as_bytes().len();
        let event = ChangeEvent {
            range: Some(LspRange { start: self.place(start), end: self.place(end) }),
            range_length: None,
            text: text.to_owned(),
        };
        self.push(event);
        let ghost st = self.shift@;
        let k = count_line_breaks(text);
        let lines = shifted_by(self.line_offset, Ghost(st.line_offset), k, end.line);
        self.line_offset = shifted_by(lines, Ghost(st.line_offset + k - end.line), start.line, 0);
        if k > 0 {
            self.char_offset = wrapped_difference(last_line_length(text), end.character);
        } else {
            let chars = shifted_by(self.char_offset, Ghost(st.char_offset), text_len, 0);
            self.char_offset = shifted_by(
                chars,
                Ghost(st.char_offset + text_len),
                start.character,
                end.character,
            );
        }
        self.shift = Ghost(moved(st, self.old.slice.spec_bytes(), self.new.spec_bytes(), op));
    }
}

impl<'o, 'n> Incremental<'o, 'n> {
    /// Turns a well-formed script between the bytes of the two texts into
    /// events.
    fn run(old: RopeSlice<'o>, new: &'n str, script: &Vec<EditOp>) -> (changes: Changes)
        requires
            well_formed(
                script@,
                old.slice.spec_bytes().len() as int,
                new.spec_bytes().len() as int,
            ),
        ensures
            changes.batch() == char_events(
                old.absolute_pos,
                old.slice.spec_bytes(),
                new.spec_bytes(),
                script@,
            ),
    {
        let ghost anchor = old.absolute_pos;
        let ghost ob = old.slice.spec_bytes();
        let ghost nb = new.spec_bytes();
        let mut cd = Incremental {
            changes: changes_new(),
            old,
            old_starts: line_starts(old.slice),
            new,
            char_offset: old.absolute_pos.character as u64,
            line_offset: old.absolute_pos.line as u64,
            on_line: 0,
            shift: Ghost(initial_shift(old.absolute_pos)),
        };
        let ghost mut oc: int = 0;
        let ghost mut nc: int = 0;
        let mut k: usize = 0;
        assert(cd.changes.batch() =~= char_events(anchor, ob, nb, script@).subrange(0, 0));
        while k < script.len()
            invariant
                k <= script@.len(),
                cd.wf(),
                cd.old == old,
                cd.new == new,
                anchor == old.absolute_pos,
                ob == old.slice.spec_bytes(),
                nb == new.spec_bytes(),
                well_formed_from(script@, k as int, oc, nc, ob.len() as int, nb.len() as int),
                0 <= oc,
                0 <= nc,
                cd.shift@ == shift_after(anchor, ob, nb, script@, k as int),
                cd.changes.batch() == char_events(anchor, ob, nb, script@).subrange(0, k as int),
            decreases script@.len() - k,
        {
            let ghost before = cd.changes.batch();
            match script[k] {
                EditOp::Delete { old: at, len } => {
                    cd.delete(at, len);
                },
                EditOp::Insert { old: at, new: to, new_len } => {
                    cd.insert(at, to, new_len);
                },
                EditOp::Replace { old: at, old_len, new: to, new_len } => {
                    cd.replace(at, old_len, to, new_len);
                },
            }
            proof {
                nc = script@[k as int].new_end(oc, nc);
                oc = script@[k as int].old_end();
                assert(char_events(anchor, ob, nb, script@).subrange(0, k + 1) =~= before.push(
                    char_event(anchor, ob, nb, script@, k as int),
                ));
            }
            k = k + 1;
        }
        assert(char_events(anchor, ob, nb, script@).subrange(0, k as int) =~= char_events(
            anchor,
            ob,
            nb,
            script@,
        ));
        cd.changes
    }

    /// The change events that turn the piece `old` of a document into `new`,
    /// for a given report `ops` of how their bytes differ. Each step of the
    /// report becomes one event, positioned where the step lies in the
    /// document once the events before it are applied. A report that is not
    /// a script from the one text to the other gives way to the exchange of
    /// the whole piece.
    pub fn diff_with_script(old: RopeSlice<'o>, new: &'n str, ops: Vec<EditOp>) -> (changes:
        Changes)
        ensures
            changes.batch() == incremental_events(
                old.absolute_pos,
                old.slice.spec_bytes(),
                new.spec_bytes(),
                ops@,
            ),
    {
        if str_eq(old.slice, new) {
            return changes_new();
        }
        let m = old.slice.as_bytes().len();
        let n = new.as_bytes().len();
        let sound = is_well_formed(&ops, m, n) && leaves_equal_bytes(
            &ops,
            old.slice.as_bytes(),
            new.as_bytes(),
        );
        let script = if sound {
            ops
        } else {
            whole(m, n)
        };
        proof {
            lemma_whole_script_transforms(old.slice.spec_bytes(), new.spec_bytes());
        }
        Self::run(old, new, &script)
    }

    /// The change events that turn the piece `old` of a document into `new`.
    /// The bytes of the two texts are compared, and each step of the
    /// comparison becomes one event, positioned where the step lies in the
    /// document once the events before it are applied. Equal texts give no
    /// event.
    pub fn diff(old: RopeSlice<'o>, new: &'n str) -> (changes: Changes)
        requires
            old.slice.spec_bytes().len() + new.spec_bytes().len() + 2 <= isize::MAX,
        ensures
            changes.batch() == incremental_events(
                old.absolute_pos,
                old.slice.spec_bytes(),
                new.spec_bytes(),
                myers_script(widened(old.slice.spec_bytes()), widened(new.spec_bytes())),
            ),
            old.slice.spec_bytes() == new.spec_bytes() ==> changes.batch().len() == 0,
    {
        if str_eq(old.slice, new) {
            return changes_new();
        }
        let old_bytes = widen(old.slice.as_bytes());
        let new_bytes = widen(new.as_bytes());
        let ops = myers(old_bytes.as_slice(), new_bytes.as_slice());
        Self::diff_with_script(old, new, ops)
    }
}

} // verus!
