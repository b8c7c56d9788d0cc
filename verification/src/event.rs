//! Change events: what is sent to the language server, and the batch that
//! one diff produces.

use vstd::prelude::*;
use vstd::utf8::*;

verus! {

/// A position as the protocol writes it: line and character, from zero.
#[derive(Clone, Copy, Debug, PartialEq, Eq, Structural)]
pub struct LspPosition {
    pub line: u64,
    pub character: u64,
}

/// A half-open range of a document, from `start` up to `end`.
#[derive(Clone, Copy, Debug, PartialEq, Eq, Structural)]
pub struct LspRange {
    pub start: LspPosition,
    pub end: LspPosition,
}

/// One edit of a document: the text between `range.start` and `range.end` is
/// replaced by `text`. Without a range the whole document is replaced.
#[derive(Clone, Debug)]
pub struct ChangeEvent {
    pub range: Option<LspRange>,
    pub range_length: Option<u64>,
    pub text: String,
}

/// What a change event says, with its text as UTF-8 bytes.
pub struct EventView {
    pub range: Option<LspRange>,
    pub range_length: Option<u64>,
    pub text: Seq<u8>,
}

impl View for ChangeEvent {
    type V = EventView;

    open spec fn view(&self) -> EventView {
        EventView {
            range: self.range,
            range_length: self.range_length,
            text: encode_utf8(self.text@),
        }
    }
}

/// `a` is at or before `b`, by line and then by character.
pub open spec fn position_le(a: LspPosition, b: LspPosition) -> bool {
    a.line < b.line || (a.line == b.line && a.character <= b.character)
}

/// The events of one diff, in the order in which they were produced. They are
/// kept in a small vector that holds up to twelve events without allocating.
#[verifier::external_body]
pub struct Changes {
    inner: smallvec::SmallVec<[ChangeEvent; 12]>,
}

/// The events that a batch holds, in order.
pub uninterp spec fn changes_events(c: Changes) -> Seq<ChangeEvent>;

/// `SmallVec::new`: a vector that holds nothing.
#[verifier::external_body]
pub(crate) fn changes_new() -> (c: Changes)
    ensures
        changes_events(c) == Seq::<ChangeEvent>::empty(),
{
    Changes { inner: smallvec::SmallVec::new() }
}

/// `SmallVec::push`: the vector afterwards holds what it held, followed by `e`.
#[verifier::external_body]
pub(crate) fn changes_push(c: &mut Changes, e: ChangeEvent)
    ensures
        changes_events(*final(c)) == changes_events(*old(c)).push(e),
{
    c.inner.push(e)
}

/// `SmallVec::len`: the number of events held.
#[verifier::external_body]
pub(crate) fn changes_len(c: &Changes) -> (n: usize)
    ensures
        n == changes_events(*c).len(),
{
    c.inner.len()
}

/// Indexing a `SmallVec` below its length: the event at that place.
#[verifier::external_body]
pub(crate) fn changes_get(c: &Changes, i: usize) -> (e: &ChangeEvent)
    requires
        i < changes_events(*c).len(),
    ensures
        *e == changes_events(*c)[i as int],
{
    &c.inner[i]
}

impl Changes {
    /// What the events of the batch say, in order.
    pub open spec fn batch(self) -> Seq<EventView> {
        changes_events(self).map_values(|e: ChangeEvent| e@)
    }

    /// The number of events in the batch.
    pub fn len(&self) -> (n: usize)
        ensures
            n == self.batch().len(),
    {
        changes_len(self)
    }

    /// Whether the batch holds no event.
    pub fn is_empty(&self) -> (r: bool)
        ensures
            r == (self.batch().len() == 0),
    {
        changes_len(self) == 0
    }

    /// The event at place `i` of the batch.
    pub fn get(&self, i: usize) -> (e: &ChangeEvent)
        requires
            i < self.batch().len(),
        ensures
            e@ == self.batch()[i as int],
    {
        changes_get(self, i)
    }
}

} // verus!
