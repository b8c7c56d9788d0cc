//! The line-level differ: change events for a whole-document rewrite, one
//! event for each run of lines that was deleted, inserted or replaced. The
//! events are to be applied one after the other: the range of each is in
//! lines of the document as the events before it have left it.

use vstd::prelude::*;
use vstd::string::*;
use vstd::slice::*;
use vstd::utf8::*;

use crate::event::{
    changes_new, changes_push, ChangeEvent, Changes, EventView, LspPosition, LspRange,
};
use crate::hash::{hash_lines, hashes_of};
use crate::document::applied_first;
use crate::laws::{law_full_round_trip, lemma_common_prefix_same};
use crate::script::{
    gaps_agree_from, is_well_formed, lemma_whole_script_transforms, myers, myers_script,
    new_cursor, old_cursor, transforms, well_formed, well_formed_from, whole, whole_script,
    EditOp,
};
use crate::text::{
    bytes_of_each, is_line_table, lemma_breaks_bounded, lemma_line_start_is_boundary,
    lemma_line_starts_ordered, line_bytes, line_start, line_starts, line_total, lines_of,
    split_lines, str_eq, substr,
};

verus! {

/// A piece of text together with the line of the document at which it begins.
#[derive(Clone, Copy, Debug)]
pub struct LineRopeSlice<'a> {
    pub slice: &'a str,
    /// The line index that this slice was created at.
    pub absolute_index: usize,
}

impl<'a> LineRopeSlice<'a> {
    /// The lines of the slice, each with the line of the document at which
    /// it stands.
    pub fn segments(&self) -> (segs: Vec<LineRopeSlice<'a>>)
        requires
            self.absolute_index + line_total(self.slice.spec_bytes()) <= usize::MAX,
        ensures
            segs@.len() == line_total(self.slice.spec_bytes()),
            forall|k: int|
                0 <= k < segs@.len() ==> {
                    &&& (#[trigger] segs@[k]).slice.spec_bytes() == line_bytes(
                        self.slice.spec_bytes(),
                        k,
                    )
                    &&& segs@[k].absolute_index == self.absolute_index + k
                },
    {
        let lines = split_lines(self.slice);
        let ghost s = self.slice.spec_bytes();
        assert(lines@.len() == bytes_of_each(lines@).len());
        let mut segs: Vec<LineRopeSlice<'a>> = Vec::new();
        let mut k: usize = 0;
        while k < lines.len()
            invariant
                k <= lines@.len(),
                lines@.len() == line_total(s),
                bytes_of_each(lines@) == lines_of(s),
                self.absolute_index + line_total(s) <= usize::MAX,
                segs@.len() == k,
                forall|j: int|
                    0 <= j < k ==> {
                        &&& (#[trigger] segs@[j]).slice.spec_bytes() == line_bytes(s, j)
                        &&& segs@[j].absolute_index == self.absolute_index + j
                    },
            decreases lines@.len() - k,
        {
            assert(bytes_of_each(lines@)[k as int] == lines@[k as int].spec_bytes());
            segs.push(LineRopeSlice { slice: lines[k], absolute_index: self.absolute_index + k });
            k = k + 1;
        }
        segs
    }

    /// The line of the document at which the slice begins.
    pub fn pos(&self) -> (r: usize)
        ensures
            r == self.absolute_index,
    {
        self.absolute_index
    }

    /// The text of the slice.
    pub fn content(&self) -> (r: &'a str)
        ensures
            r == self.slice,
    {
        self.slice
    }
}

/// A whole document.
#[derive(Clone, Debug)]
pub struct Rope(pub String);

impl Rope {
    /// The UTF-8 bytes of the document.
    pub open spec fn bytes(&self) -> Seq<u8> {
        encode_utf8(self.0@)
    }

    /// The lines of the document, each with its line index.
    pub fn segments(&self) -> (segs: Vec<LineRopeSlice<'_>>)
        requires
            line_total(self.bytes()) <= usize::MAX,
        ensures
            segs@.len() == line_total(self.bytes()),
            forall|k: int|
                0 <= k < segs@.len() ==> {
                    &&& (#[trigger] segs@[k]).slice.spec_bytes() == line_bytes(self.bytes(), k)
                    &&& segs@[k].absolute_index == k
                },
    {
        let whole = LineRopeSlice { slice: self.0.as_str(), absolute_index: 0 };
        whole.segments()
    }
}

/// How many items `a` and `b` have in common at their start, counted from
/// `i` items that are known to be common.
pub open spec fn common_prefix<T>(a: Seq<T>, b: Seq<T>, i: int) -> int
    decreases a.len() - i,
{
    if 0 <= i < a.len() && i < b.len() && a[i] == b[i] {
        common_prefix(a, b, i + 1)
    } else {
        i
    }
}

/// How many items `a` and `b` have in common at their end, not reaching into
/// their first `p` items, counted from `k` items that are known to be common.
pub open spec fn common_suffix<T>(a: Seq<T>, b: Seq<T>, p: int, k: int) -> int
    decreases a.len() - p - k,
{
    if 0 <= k && p + k < a.len() && p + k < b.len() && a[a.len() - 1 - k] == b[b.len() - 1 - k] {
        common_suffix(a, b, p, k + 1)
    } else {
        k
    }
}

/// The number of leading lines that two texts share.
pub open spec fn shared_head(old: Seq<u8>, new: Seq<u8>) -> int {
    common_prefix(lines_of(old), lines_of(new), 0)
}

/// The number of trailing lines that two texts share beyond the shared
/// leading lines.
pub open spec fn shared_tail(old: Seq<u8>, new: Seq<u8>) -> int {
    common_suffix(lines_of(old), lines_of(new), shared_head(old, new), 0)
}

/// The lines of `old` that are left when the lines shared with `new` at the
/// start and at the end are set aside.
pub open spec fn window_old(old: Seq<u8>, new: Seq<u8>) -> Seq<Seq<u8>> {
    lines_of(old).subrange(shared_head(old, new), line_total(old) - shared_tail(old, new))
}

/// The lines of `new` that are left when the lines shared with `old` at the
/// start and at the end are set aside.
pub open spec fn window_new(old: Seq<u8>, new: Seq<u8>) -> Seq<Seq<u8>> {
    lines_of(new).subrange(shared_head(old, new), line_total(new) - shared_tail(old, new))
}

/// The script that is turned into events: `ops` where it is a script from
/// `wo` to `wn`, else the script that exchanges all of `wo` for all of `wn`.
pub open spec fn checked_script(ops: Seq<EditOp>, wo: Seq<Seq<u8>>, wn: Seq<Seq<u8>>) -> Seq<
    EditOp,
> {
    if transforms(ops, wo, wn) {
        ops
    } else {
        whole_script(wo.len() as usize, wn.len() as usize)
    }
}

/// The lines `from` up to `to` of `s`, joined.
pub open spec fn lines_text(s: Seq<u8>, from: int, to: int) -> Seq<u8> {
    s.subrange(line_start(s, from as nat), line_start(s, to as nat))
}

/// The event for one step of a line script whose indices count from line
/// `first` of both texts, the step beginning at line `to` of the new window.
/// The range is in lines of the document as the steps before it have left
/// it: there the step begins where it begins in the new text, and it covers
/// as many lines as it takes away. The text is the new lines of the step.
pub open spec fn line_event(new: Seq<u8>, first: int, op: EditOp, to: int) -> EventView {
    EventView {
        range: Some(
            LspRange {
                start: LspPosition { line: (first + to) as u64, character: 0 },
                end: LspPosition { line: (first + to + op.old_count()) as u64, character: 0 },
            },
        ),
        range_length: if op is Insert {
            Some(0u64)
        } else {
            None
        },
        text: match op {
            EditOp::Delete { .. } => Seq::empty(),
            EditOp::Insert { new: at, new_len, .. } => lines_text(
                new,
                first + at,
                first + at + new_len,
            ),
            EditOp::Replace { new: at, new_len, .. } => lines_text(
                new,
                first + at,
                first + at + new_len,
            ),
        },
    }
}

/// Where step `k` of a script begins in the new sequence.
pub open spec fn step_start(ops: Seq<EditOp>, k: int) -> int {
    ops[k].new_start(old_cursor(ops, k), new_cursor(ops, k))
}

/// The events for the steps of a line script, in order.
pub open spec fn line_events(new: Seq<u8>, first: int, ops: Seq<EditOp>) -> Seq<EventView> {
    Seq::new(ops.len(), |k: int| line_event(new, first, ops[k], step_start(ops, k)))
}

/// The events of the line-level diff of `old` and `new`, given the script
/// `ops` that a comparison of the changed windows reported.
pub open spec fn full_events(old: Seq<u8>, new: Seq<u8>, ops: Seq<EditOp>) -> Seq<EventView> {
    let wo = window_old(old, new);
    let wn = window_new(old, new);
    if wo.len() == 0 && wn.len() == 0 {
        Seq::empty()
    } else {
        line_events(new, shared_head(old, new), checked_script(ops, wo, wn))
    }
}

/// Counts the leading lines that `a` and `b` share.
fn shared_head_len(a: &Vec<&str>, b: &Vec<&str>) -> (p: usize)
    ensures
        p == common_prefix(bytes_of_each(a@), bytes_of_each(b@), 0),
        p <= a@.len(),
        p <= b@.len(),
{
    let mut i: usize = 0;
    while i < a.len() && i < b.len() && str_eq(a[i], b[i])
        invariant
            i <= a@.len(),
            i <= b@.len(),
            common_prefix(bytes_of_each(a@), bytes_of_each(b@), 0) == common_prefix(
                bytes_of_each(a@),
                bytes_of_each(b@),
                i as int,
            ),
        decreases a@.len() - i,
    {
        i = i + 1;
    }
    i
}

/// Counts the trailing lines that `a` and `b` share beyond their first `p`.
fn shared_tail_len(a: &Vec<&str>, b: &Vec<&str>, p: usize) -> (s: usize)
    requires
        p <= a@.len(),
        p <= b@.len(),
    ensures
        s == common_suffix(bytes_of_each(a@), bytes_of_each(b@), p as int, 0),
        p + s <= a@.len(),
        p + s <= b@.len(),
{
    let mut k: usize = 0;
    while k < a.len() - p && k < b.len() - p && str_eq(a[a.len() - 1 - k], b[b.len() - 1 - k])
        invariant
            p + k <= a@.len(),
            p + k <= b@.len(),
            common_suffix(bytes_of_each(a@), bytes_of_each(b@), p as int, 0) == common_suffix(
                bytes_of_each(a@),
                bytes_of_each(b@),
                p as int,
                k as int,
            ),
        decreases a@.len() - p - k,
    {
        k = k + 1;
    }
    k
}

/// Tells whether `count` lines of `a` from `i` on are the lines of `b` from
/// `j` on.
fn same_lines(a: &[&str], i: usize, b: &[&str], j: usize, count: usize) -> (r: bool)
    requires
        i + count <= a@.len(),
        j + count <= b@.len(),
    ensures
        r == (bytes_of_each(a@).subrange(i as int, i + count) == bytes_of_each(b@).subrange(
            j as int,
            j + count,
        )),
{
    let ghost x = bytes_of_each(a@).subrange(i as int, i + count);
    let ghost y = bytes_of_each(b@).subrange(j as int, j + count);
    let limit_a = a.len();
    let limit_b = b.len();
    let mut d: usize = 0;
    while d < count
        invariant
            d <= count,
            limit_a == a@.len(),
            limit_b == b@.len(),
            i + count <= a@.len(),
            j + count <= b@.len(),
            x == bytes_of_each(a@).subrange(i as int, i + count),
            y == bytes_of_each(b@).subrange(j as int, j + count),
            forall|e: int| 0 <= e < d ==> x[e] == y[e],
        decreases count - d,
    {
        if !str_eq(a[i + d], b[j + d]) {
            assert(x[d as int] != y[d as int]);
            return false;
        }
        d = d + 1;
    }
    assert(x =~= y);
    true
}

/// Tells whether a well-formed script leaves alone only lines that are the
/// same in `a` and in `b`.
fn gaps_agree(ops: &Vec<EditOp>, a: &[&str], b: &[&str]) -> (r: bool)
    requires
        well_formed(ops@, a@.len() as int, b@.len() as int),
    ensures
        r == gaps_agree_from(ops@, 0, 0, 0, bytes_of_each(a@), bytes_of_each(b@)),
{
    let ghost x = bytes_of_each(a@);
    let ghost y = bytes_of_each(b@);
    let limit_a = a.len();
    let limit_b = b.len();
    let mut k: usize = 0;
    let mut oc: usize = 0;
    let mut nc: usize = 0;
    while k < ops.len()
        invariant
            k <= ops@.len(),
            limit_a == a@.len(),
            limit_b == b@.len(),
            x == bytes_of_each(a@),
            y == bytes_of_each(b@),
            oc <= a@.len(),
            nc <= b@.len(),
            well_formed_from(
                ops@,
                k as int,
                oc as int,
                nc as int,
                a@.len() as int,
                b@.len() as int,
            ),
            gaps_agree_from(ops@, 0, 0, 0, x, y) == gaps_agree_from(
                ops@,
                k as int,
                oc as int,
                nc as int,
                x,
                y,
            ),
        decreases ops@.len() - k,
    {
        let op = ops[k];
        if !same_lines(a, oc, b, nc, op.old_index() - oc) {
            return false;
        }
        let to = op.new_index(oc, nc);
        oc = op.old_index() + op.old_len();
        nc = to + op.new_len();
        k = k + 1;
    }
    same_lines(a, oc, b, nc, a.len() - oc)
}

/// The state of one line-level diff: the events so far, the two texts, and
/// where the changed window begins.
pub struct Full<'o, 'n> {
    changes: Changes,
    old: LineRopeSlice<'o>,
    new: LineRopeSlice<'n>,
    new_starts: Vec<usize>,
    first: usize,
}

impl<'o, 'n> Full<'o, 'n> {
    /// The line starts of the new text are known.
    pub closed spec fn wf(&self) -> bool {
        is_line_table(self.new_starts@, self.new.slice.spec_bytes())
    }

    /// The new lines `from` up to `to`, joined.
    fn new_lines(&self, from: usize, to: usize) -> (text: String)
        requires
            self.wf(),
            from <= to <= line_total(self.new.slice.spec_bytes()),
        ensures
            encode_utf8(text@) == lines_text(self.new.slice.spec_bytes(), from as int, to as int),
    {
        let ghost s = self.new.slice.spec_bytes();
        proof {
            encode_utf8_valid_utf8(self.new.slice@);
            lemma_line_start_is_boundary(s, from as nat);
            lemma_line_start_is_boundary(s, to as nat);
            lemma_line_starts_ordered(s, from as int, to as int);
        }
        substr(self.new.slice, self.new_starts[from], self.new_starts[to]).to_owned()
    }

    /// Records the deletion of `len` old lines from line `at` of the old
    /// window, which the steps before have brought to line `to`.
    fn delete(&mut self, at: usize, len: usize, to: usize)
        requires
            old(self).wf(),
            old(self).first + to + len <= usize::MAX,
        ensures
            final(self).wf(),
            final(self).old == old(self).old,
            final(self).new == old(self).new,
            final(self).first == old(self).first,
            final(self).new_starts == old(self).new_starts,
            final(self).changes.batch() == old(self).changes.batch().push(
                line_event(
                    old(self).new.slice.spec_bytes(),
                    old(self).first as int,
                    EditOp::Delete { old: at, len },
                    to as int,
                ),
            ),
    {
        let from = self.first + to;
        let event = ChangeEvent {
            range: Some(
                LspRange {
                    start: LspPosition { line: from as u64, character: 0 },
                    end: LspPosition { line: (from + len) as u64, character: 0 },
                },
            ),
            range_length: None,
            text: String::new(),
        };
        assert(encode_utf8(event.text@) =~= Seq::<u8>::empty());
        let ghost before = self.changes;
        changes_push(&mut self.changes, event);
        assert(self.changes.batch() =~= before.batch().push(event@));
    }

    /// Records the insertion of `new_len` new lines, from line `new` of the
    /// new window on, before old line `at` of the old window.
    fn insert(&mut self, at: usize, new: usize, new_len: usize)
        requires
            old(self).wf(),
            old(self).first + new + new_len <= line_total(old(self).new.slice.spec_bytes()),
        ensures
            final(self).wf(),
            final(self).old == old(self).old,
            final(self).new == old(self).new,
            final(self).first == old(self).first,
            final(self).new_starts == old(self).new_starts,
            final(self).changes.batch() == old(self).changes.batch().push(
                line_event(
                    old(self).new.slice.spec_bytes(),
                    old(self).first as int,
                    EditOp::Insert { old: at, new, new_len },
                    new as int,
                ),
            ),
    {
        let limit = self.new_starts.len();
        let text = self.new_lines(self.first + new, self.first + new + new_len);
        let start = LspPosition { line: (self.first + new) as u64, character: 0 };
        let event = ChangeEvent {
            range: Some(LspRange { start, end: start }),
            range_length: Some(0),
            text,
        };
        let ghost before = self.changes;
        changes_push(&mut self.changes, event);
        assert(self.changes.batch() =~= before.batch().push(event@));
    }

    /// Records the replacement of `old_len` old lines from line `at` of the
    /// old window by `new_len` new lines from line `new` of the new window.
    fn replace(&mut self, at: usize, old_len: usize, new: usize, new_len: usize)
        requires
            old(self).wf(),
            old(self).first + new + old_len <= usize::MAX,
            old(self).first + new + new_len <= line_total(old(self).new.slice.spec_bytes()),
        ensures
            final(self).wf(),
            final(self).old == old(self).old,
            final(self).new == old(self).new,
            final(self).first == old(self).first,
            final(self).new_starts == old(self).new_starts,
            final(self).changes.batch() == old(self).changes.batch().push(
                line_event(
                    old(self).new.slice.spec_bytes(),
                    old(self).first as int,
                    EditOp::Replace { old: at, old_len, new, new_len },
                    new as int,
                ),
            ),
    {
        let limit = self.new_starts.len();
        let text = self.new_lines(self.first + new, self.first + new + new_len);
        let from = self.first + new;
        let event = ChangeEvent {
            range: Some(
                LspRange {
                    start: LspPosition { line: from as u64, character: 0 },
                    end: LspPosition { line: (from + old_len) as u64, character: 0 },
                },
            ),
            range_length: None,
            text,
        };
        let ghost before = self.changes;
        changes_push(&mut self.changes, event);
        assert(self.changes.batch() =~= before.batch().push(event@));
    }
}

impl<'o, 'n> Full<'o, 'n> {
    /// Turns a well-formed script over a window of `wm` old and `wn` new
    /// lines, which begins at line `first`, into events.
    fn run(
        old: &'o str,
        new: &'n str,
        first: usize,
        wm: usize,
        wn: usize,
        script: &Vec<EditOp>,
    ) -> (changes: Changes)
        requires
            well_formed(script@, wm as int, wn as int),
            first + wm + wn <= usize::MAX,
            first + wn <= line_total(new.spec_bytes()),
        ensures
            changes.batch() == line_events(new.spec_bytes(), first as int, script@),
    {
        let mut full = Full {
            changes: changes_new(),
            old: LineRopeSlice { slice: old, absolute_index: 0 },
            new: LineRopeSlice { slice: new, absolute_index: 0 },
            new_starts: line_starts(new),
            first,
        };
        let ghost s = new.spec_bytes();
        let mut oc: usize = 0;
        let mut nc: usize = 0;
        let mut k: usize = 0;
        assert(full.changes.batch() =~= line_events(s, first as int, script@).subrange(0, 0));
        while k < script.len()
            invariant
                k <= script@.len(),
                full.wf(),
                full.new.slice == new,
                full.first == first,
                s == new.spec_bytes(),
                first + wm + wn <= usize::MAX,
                first + wn <= line_total(s),
                well_formed_from(script@, k as int, oc as int, nc as int, wm as int, wn as int),
                oc == old_cursor(script@, k as int),
                nc == new_cursor(script@, k as int),
                oc <= wm,
                nc <= wn,
                full.changes.batch() == line_events(s, first as int, script@).subrange(
                    0,
                    k as int,
                ),
            decreases script@.len() - k,
        {
            let ghost before = full.changes.batch();
            let op = script[k];
            let to = op.new_index(oc, nc);
            match op {
                EditOp::Delete { old: at, len } => {
                    full.delete(at, len, to);
                },
                EditOp::Insert { old: at, new: at_new, new_len } => {
                    full.insert(at, at_new, new_len);
                },
                EditOp::Replace { old: at, old_len, new: at_new, new_len } => {
                    full.replace(at, old_len, at_new, new_len);
                },
            }
            proof {
                assert(line_events(s, first as int, script@).subrange(0, k + 1) =~= before.push(
                    line_event(s, first as int, script@[k as int], step_start(script@, k as int)),
                ));
            }
            oc = op.old_index() + op.old_len();
            nc = to + op.new_len();
            k = k + 1;
        }
        assert(line_events(s, first as int, script@).subrange(0, k as int) =~= line_events(
            s,
            first as int,
            script@,
        ));
        full.changes
    }

    /// Turns the script `ops`, reported for the window lines `wo` and `wn`
    /// that begin at line `first`, into events; a script that does not lead
    /// from `wo` to `wn` gives way to the exchange of all of `wo` for all of `wn`.
    fn from_window(
        old: &'o str,
        new: &'n str,
        first: usize,
        wo: &[&str],
        wn: &[&str],
        ops: Vec<EditOp>,
    ) -> (changes: Changes)
        requires
            first + wo@.len() + wn@.len() <= usize::MAX,
            first + wn@.len() <= line_total(new.spec_bytes()),
        ensures
            changes.batch() == line_events(
                new.spec_bytes(),
                first as int,
                checked_script(ops@, bytes_of_each(wo@), bytes_of_each(wn@)),
            ),
    {
        let wm = wo.len();
        let wl = wn.len();
        let sound = is_well_formed(&ops, wm, wl) && gaps_agree(&ops, wo, wn);
        let script = if sound {
            ops
        } else {
            whole(wm, wl)
        };
        proof {
            lemma_whole_script_transforms(bytes_of_each(wo@), bytes_of_each(wn@));
        }
        Self::run(old, new, first, wm, wl, &script)
    }

    /// The lines of both texts, and how many they share at the start and at
    /// the end.
    fn window(old: &'o str, new: &'n str) -> (w: (Vec<&'o str>, Vec<&'n str>, usize, usize))
        ensures
            bytes_of_each(w.0@) == lines_of(old.spec_bytes()),
            bytes_of_each(w.1@) == lines_of(new.spec_bytes()),
            w.2 == shared_head(old.spec_bytes(), new.spec_bytes()),
            w.3 == shared_tail(old.spec_bytes(), new.spec_bytes()),
            w.2 + w.3 <= w.0@.len(),
            w.2 + w.3 <= w.1@.len(),
    {
        let old_lines = split_lines(old);
        let new_lines = split_lines(new);
        let p = shared_head_len(&old_lines, &new_lines);
        let s = shared_tail_len(&old_lines, &new_lines, p);
        (old_lines, new_lines, p, s)
    }

    /// The change events that turn `old` into `new`, line by line. Lines that
    /// both texts share at the start and at the end are set aside; the lines
    /// between are compared, and every run of lines that was deleted,
    /// inserted or replaced becomes one event. Its range is in lines of the
    /// document as the events before it have left it, from column 0 to
    /// column 0, and its text is the new lines. Applied one after the other,
    /// the events turn `old` into `new`.
    pub fn diff(old: &'o str, new: &'n str) -> (changes: Changes)
        requires
            old.spec_bytes().len() + new.spec_bytes().len() + 4 <= isize::MAX,
        ensures
            changes.batch() == full_events(
                old.spec_bytes(),
                new.spec_bytes(),
                myers_script(
                    hashes_of(window_old(old.spec_bytes(), new.spec_bytes())),
                    hashes_of(window_new(old.spec_bytes(), new.spec_bytes())),
                ),
            ),
            old.spec_bytes() == new.spec_bytes() ==> changes.batch().len() == 0,
            applied_first(old.spec_bytes(), changes.batch(), changes.batch().len() as int)
                == new.spec_bytes(),
    {
        let (old_lines, new_lines, p, s) = Self::window(old, new);
        let ghost ob = old.spec_bytes();
        let ghost nb = new.spec_bytes();
        proof {
            if ob == nb {
                lemma_common_prefix_same(lines_of(ob), 0);
                assert(window_old(ob, nb).len() == 0);
                assert(window_new(ob, nb).len() == 0);
            }
            law_full_round_trip(
                ob,
                nb,
                myers_script(hashes_of(window_old(ob, nb)), hashes_of(window_new(ob, nb))),
            );
        }
        let wo = slice_subrange(old_lines.as_slice(), p, old_lines.len() - s);
        let wn = slice_subrange(new_lines.as_slice(), p, new_lines.len() - s);
        proof {
            assert(bytes_of_each(wo@) =~= window_old(ob, nb));
            assert(bytes_of_each(wn@) =~= window_new(ob, nb));
            lemma_breaks_bounded(ob, ob.len() as int);
            lemma_breaks_bounded(nb, nb.len() as int);
        }
        if wo.len() == 0 && wn.len() == 0 {
            return changes_new();
        }
        let old_hashes = hash_lines(wo);
        let new_hashes = hash_lines(wn);
        let ops = myers(old_hashes.as_slice(), new_hashes.as_slice());
        Self::from_window(old, new, p, wo, wn, ops)
    }

    /// The change events that turn `old` into `new`, line by line, for a
    /// given report `ops` of how the lines between the shared start and the
    /// shared end differ.
    pub fn diff_with_script(old: &'o str, new: &'n str, ops: Vec<EditOp>) -> (changes: Changes)
        requires
            old.spec_bytes().len() + new.spec_bytes().len() + 2 <= usize::MAX,
        ensures
            changes.batch() == full_events(old.spec_bytes(), new.spec_bytes(), ops@),
            applied_first(old.spec_bytes(), changes.batch(), changes.batch().len() as int)
                == new.spec_bytes(),
    {
        let (old_lines, new_lines, p, s) = Self::window(old, new);
        let ghost ob = old.spec_bytes();
        let ghost nb = new.spec_bytes();
        proof {
            law_full_round_trip(ob, nb, ops@);
        }
        let wo = slice_subrange(old_lines.as_slice(), p, old_lines.len() - s);
        let wn = slice_subrange(new_lines.as_slice(), p, new_lines.len() - s);
        proof {
            assert(bytes_of_each(wo@) =~= window_old(ob, nb));
            assert(bytes_of_each(wn@) =~= window_new(ob, nb));
            lemma_breaks_bounded(ob, ob.len() as int);
            lemma_breaks_bounded(nb, nb.len() as int);
        }
        if wo.len() == 0 && wn.len() == 0 {
            return changes_new();
        }
        Self::from_window(old, new, p, wo, wn, ops)
    }
}

} // verus!
