//! Coordinates in a text: byte offsets, lines and columns.
//!
//! A text is a string; its model is the sequence of its UTF-8 bytes. Lines are
//! separated by line terminators: LF, CR, CR LF (one terminator), NEL (U+0085),
//! LS (U+2028) and PS (U+2029). A line includes its terminator, and a text
//! with `k` terminators has `k + 1` lines, the last of which may be empty.
//! Columns count bytes from the first byte of the line.

use vstd::prelude::*;
use vstd::string::*;
use vstd::utf8::*;

verus! {

/// A line and a column in a text, both counted from zero.
#[derive(Clone, Copy, Debug, PartialEq, Eq, Structural)]
pub struct Position {
    pub line: usize,
    pub character: usize,
}

/// A line terminator ends just before byte index `i` of `s`: its last byte is
/// `s[i - 1]`. A CR directly followed by LF ends nothing; the pair ends after
/// the LF.
pub open spec fn break_ends_at(s: Seq<u8>, i: int) -> bool {
    &&& 0 < i <= s.len()
    &&& (s[i - 1] == 0x0A
        || (s[i - 1] == 0x0D && (i == s.len() || s[i] != 0x0A))
        || (i >= 2 && s[i - 2] == 0xC2 && s[i - 1] == 0x85)
        || (i >= 3 && s[i - 3] == 0xE2 && s[i - 2] == 0x80
            && (s[i - 1] == 0xA8 || s[i - 1] == 0xA9)))
}

/// The number of line terminators of `s` that end at or before byte index `i`.
pub open spec fn breaks_upto(s: Seq<u8>, i: int) -> nat
    decreases i,
{
    if i <= 0 {
        0
    } else {
        breaks_upto(s, i - 1) + if break_ends_at(s, i) {
            1nat
        } else {
            0nat
        }
    }
}

/// The number of line terminators in `s`.
pub open spec fn line_breaks(s: Seq<u8>) -> nat {
    breaks_upto(s, s.len() as int)
}

/// The number of lines of `s`: one more than its terminators.
pub open spec fn line_total(s: Seq<u8>) -> nat {
    line_breaks(s) + 1
}

/// The least byte index from `i` on at which `l` terminators have ended, or
/// the length of `s` where there is none.
pub open spec fn line_start_from(s: Seq<u8>, l: nat, i: int) -> int
    decreases s.len() - i,
{
    if i >= s.len() {
        s.len() as int
    } else if breaks_upto(s, i) >= l {
        i
    } else {
        line_start_from(s, l, i + 1)
    }
}

/// The byte index at which line `l` of `s` begins. For `l` equal to the number
/// of lines, and beyond, this is the length of `s`.
pub open spec fn line_start(s: Seq<u8>, l: nat) -> int {
    line_start_from(s, l, 0)
}

/// The greatest character boundary of `s` that is at most `i`.
pub open spec fn boundary_floor(s: Seq<u8>, i: int) -> int
    decreases i,
{
    if i <= 0 {
        0
    } else if is_char_boundary(s, i) {
        i
    } else {
        boundary_floor(s, i - 1)
    }
}

/// The line that holds byte offset `b` of `s`, after `b` is rounded down to a
/// character boundary.
pub open spec fn line_of(s: Seq<u8>, b: int) -> nat {
    breaks_upto(s, boundary_floor(s, b))
}

/// The column of byte offset `b` of `s`, after `b` is rounded down to a
/// character boundary: its distance from the start of its line.
pub open spec fn column_of(s: Seq<u8>, b: int) -> int {
    boundary_floor(s, b) - line_start(s, line_of(s, b))
}

/// The number of bytes of `s` after its last line terminator.
pub open spec fn last_line_len(s: Seq<u8>) -> int {
    s.len() - line_start(s, line_breaks(s))
}

/// There are no more terminators than bytes, and none ends behind the text.
pub proof fn lemma_breaks_bounded(s: Seq<u8>, i: int)
    ensures
        breaks_upto(s, i) <= if i <= 0 {
            0
        } else {
            i
        },
        i >= s.len() ==> breaks_upto(s, i) == line_breaks(s),
    decreases i,
{
    if i > 0 {
        lemma_breaks_bounded(s, i - 1);
    }
}

/// The number of terminators that have ended never falls along the text.
pub proof fn lemma_breaks_monotone(s: Seq<u8>, i: int, j: int)
    requires
        i <= j,
    ensures
        breaks_upto(s, i) <= breaks_upto(s, j),
    decreases j - i,
{
    if i < j {
        lemma_breaks_monotone(s, i, j - 1);
    }
}

/// Scanning from `j`, the first index at which `l` terminators have ended is `i`.
pub proof fn lemma_line_start_scan(s: Seq<u8>, l: nat, j: int, i: int)
    requires
        0 <= j <= i <= s.len(),
        forall|k: int| j <= k < i ==> breaks_upto(s, k) < l,
        i == s.len() || breaks_upto(s, i) >= l,
    ensures
        line_start_from(s, l, j) == i,
    decreases i - j,
{
    if j < i {
        lemma_line_start_scan(s, l, j + 1, i);
    }
}

/// A line begins where a terminator ends.
pub proof fn lemma_line_start_at_break(s: Seq<u8>, i: int)
    requires
        break_ends_at(s, i),
    ensures
        line_start(s, breaks_upto(s, i)) == i,
{
    let l = breaks_upto(s, i);
    assert forall|k: int| 0 <= k < i implies breaks_upto(s, k) < l by {
        lemma_breaks_monotone(s, k, i - 1);
    }
    lemma_line_start_scan(s, l, 0, i);
}

/// Line `l` of `s`, with its terminator.
pub open spec fn line_bytes(s: Seq<u8>, l: int) -> Seq<u8> {
    s.subrange(line_start(s, l as nat), line_start(s, (l + 1) as nat))
}

/// The lines of `s`, each with its terminator, in order.
pub open spec fn lines_of(s: Seq<u8>) -> Seq<Seq<u8>> {
    Seq::new(line_total(s), |l: int| line_bytes(s, l))
}

/// Line starts lie within the text and rise with the line.
pub proof fn lemma_line_start_bounds(s: Seq<u8>, l: nat, j: int)
    requires
        0 <= j <= s.len(),
    ensures
        j <= line_start_from(s, l, j) <= s.len(),
        line_start_from(s, l, j) <= line_start_from(s, l + 1, j),
    decreases s.len() - j,
{
    if j < s.len() {
        lemma_line_start_bounds(s, l, j + 1);
        lemma_line_start_bounds(s, l + 1, j + 1);
    }
}

/// Line starts rise with the line and stay within the text.
pub proof fn lemma_line_starts_ordered(s: Seq<u8>, a: int, b: int)
    requires
        0 <= a <= b,
    ensures
        0 <= line_start(s, a as nat) <= line_start(s, b as nat) <= s.len(),
    decreases b - a,
{
    lemma_line_start_bounds(s, a as nat, 0);
    lemma_line_start_bounds(s, b as nat, 0);
    if a < b {
        lemma_line_starts_ordered(s, a, b - 1);
        lemma_line_start_bounds(s, (b - 1) as nat, 0);
    }
}

/// Past the last line, a line start is the end of the text.
pub proof fn lemma_line_start_past_end(s: Seq<u8>, l: nat)
    requires
        l > line_breaks(s),
    ensures
        line_start(s, l) == s.len(),
{
    assert forall|k: int| 0 <= k < s.len() implies breaks_upto(s, k) < l by {
        lemma_breaks_monotone(s, k, s.len() as int);
    }
    lemma_line_start_scan(s, l, 0, s.len() as int);
}

/// Line `l` begins at the start of the text or where the `l`-th terminator
/// ends, and `l` terminators end at or before it.
pub proof fn lemma_line_start_is_break(s: Seq<u8>, l: nat)
    requires
        l <= line_breaks(s),
    ensures
        breaks_upto(s, line_start(s, l)) == l,
        l == 0 ==> line_start(s, l) == 0,
        l > 0 ==> break_ends_at(s, line_start(s, l)),
{
    lemma_line_start_found(s, l, 0);
}

/// Scanning from `j`, before which fewer than `l` terminators have ended,
/// finds where the `l`-th terminator ends.
proof fn lemma_line_start_found(s: Seq<u8>, l: nat, j: int)
    requires
        l <= line_breaks(s),
        0 <= j <= s.len(),
        j == 0 || breaks_upto(s, j - 1) < l,
    ensures
        breaks_upto(s, line_start_from(s, l, j)) == l,
        l == 0 ==> line_start_from(s, l, j) == j,
        l > 0 ==> break_ends_at(s, line_start_from(s, l, j)),
    decreases s.len() - j,
{
    if j < s.len() && breaks_upto(s, j) < l {
        lemma_line_start_found(s, l, j + 1);
    }
}

/// In well-formed UTF-8, the byte after a terminator begins a character.
pub proof fn lemma_break_is_boundary(s: Seq<u8>, i: int)
    requires
        valid_utf8(s),
        break_ends_at(s, i),
    ensures
        is_char_boundary(s, i),
{
    is_char_boundary_start_end_of_seq(s);
    if i < s.len() {
        reveal_with_fuel(valid_utf8, 2);
        let w: int = if s[i - 1] == 0x0A || s[i - 1] == 0x0D {
            1
        } else if s[i - 1] == 0x85 {
            2
        } else {
            3
        };
        let j = i - w;
        assert(!is_continuation_byte(s[j]));
        is_char_boundary_iff_not_is_continuation_byte(s, j);
        valid_utf8_split(s, j);
        let t = s.subrange(j, s.len() as int);
        assert(t[0] == s[j]);
        assert(length_of_first_scalar(t) == w);
        let rest = pop_first_scalar(t);
        assert(rest.len() > 0);
        assert(rest[0] == s[i]);
        assert(valid_first_scalar(rest));
        assert(!is_continuation_byte(s[i]));
        is_char_boundary_iff_not_is_continuation_byte(s, i);
    }
}

/// In well-formed UTF-8, every line begins at a character boundary.
pub proof fn lemma_line_start_is_boundary(s: Seq<u8>, l: nat)
    requires
        valid_utf8(s),
    ensures
        is_char_boundary(s, line_start(s, l)),
{
    is_char_boundary_start_end_of_seq(s);
    if l <= line_breaks(s) {
        lemma_line_start_is_break(s, l);
        if l > 0 {
            lemma_break_is_boundary(s, line_start(s, l));
        }
    } else {
        lemma_line_start_past_end(s, l);
    }
}

/// The line of a byte offset begins at or before the offset.
pub proof fn lemma_line_of_start(s: Seq<u8>, b: int)
    requires
        0 <= b <= s.len(),
    ensures
        line_start(s, breaks_upto(s, b)) <= b,
{
    let l = breaks_upto(s, b);
    lemma_breaks_bounded(s, b);
    lemma_breaks_monotone(s, b, s.len() as int);
    lemma_line_start_is_break(s, l);
    let e = line_start(s, l);
    if e > b {
        lemma_line_start_bounds(s, l, 0);
        lemma_line_start_least(s, l, 0, b);
    }
}

/// A line begins no later than any offset at which enough terminators have
/// ended.
pub proof fn lemma_line_start_least(s: Seq<u8>, l: nat, j: int, b: int)
    requires
        0 <= j <= b <= s.len(),
        breaks_upto(s, b) >= l,
    ensures
        line_start_from(s, l, j) <= b,
    decreases b - j,
{
    if j < b && breaks_upto(s, j) < l {
        lemma_line_start_least(s, l, j + 1, b);
    }
}

/// `starts` holds the byte offsets at which the lines of `s` begin, followed
/// by the length of `s`.
pub open spec fn is_line_table(starts: Seq<usize>, s: Seq<u8>) -> bool {
    &&& starts.len() == line_total(s) + 1
    &&& forall|l: int| 0 <= l < starts.len() ==> starts[l] == line_start(s, l as nat)
}

/// Rounding down gives an offset from 0 up to the offset rounded.
pub proof fn lemma_floor_bounds(s: Seq<u8>, a: int)
    ensures
        0 <= boundary_floor(s, a),
        a >= 0 ==> boundary_floor(s, a) <= a,
    decreases a,
{
    if a > 0 && !is_char_boundary(s, a) {
        lemma_floor_bounds(s, a - 1);
    }
}

/// Rounding down to a character boundary keeps the order of offsets.
pub proof fn lemma_floor_monotone(s: Seq<u8>, a: int, b: int)
    requires
        a <= b,
    ensures
        boundary_floor(s, a) <= boundary_floor(s, b),
    decreases b,
{
    lemma_floor_bounds(s, a);
    lemma_floor_bounds(s, b);
    if b > 0 && a < b && !is_char_boundary(s, b) {
        lemma_floor_monotone(s, a, b - 1);
    }
}

/// Byte `a` of `x` and byte `b` of `y` both begin a line, and the byte
/// before them is the same: both are the start of the text, or a terminator
/// ends at both.
pub open spec fn same_line_start(x: Seq<u8>, a: int, y: Seq<u8>, b: int) -> bool {
    ||| (a == 0 && b == 0)
    ||| (break_ends_at(x, a) && break_ends_at(y, b) && x[a - 1] == y[b - 1])
}

/// The text `x` up to byte `a`, followed by the text `y` from byte `b` on.
pub open spec fn spliced(x: Seq<u8>, a: int, y: Seq<u8>, b: int) -> Seq<u8> {
    x.subrange(0, a) + y.subrange(b, y.len() as int)
}

/// Up to the seam, a spliced text has the terminators of its first part.
pub proof fn lemma_splice_head(x: Seq<u8>, a: int, y: Seq<u8>, b: int, i: int)
    requires
        0 <= a <= x.len(),
        0 <= b <= y.len(),
        same_line_start(x, a, y, b),
        0 <= i <= a,
    ensures
        breaks_upto(spliced(x, a, y, b), i) == breaks_upto(x, i),
    decreases i,
{
    let d = spliced(x, a, y, b);
    if i > 0 {
        lemma_splice_head(x, a, y, b, i - 1);
        assert(d[i - 1] == x[i - 1]);
        if i >= 2 {
            assert(d[i - 2] == x[i - 2]);
        }
        if i >= 3 {
            assert(d[i - 3] == x[i - 3]);
        }
        if i < a {
            assert(d[i] == x[i]);
        } else if b < y.len() {
            assert(d[a] == y[b]);
        }
        assert(break_ends_at(d, i) == break_ends_at(x, i));
    }
}

/// Behind the seam, a spliced text has the terminators of its second part.
pub proof fn lemma_splice_tail(x: Seq<u8>, a: int, y: Seq<u8>, b: int, j: int)
    requires
        0 <= a <= x.len(),
        0 <= b <= y.len(),
        same_line_start(x, a, y, b),
        0 <= j <= y.len() - b,
    ensures
        breaks_upto(spliced(x, a, y, b), a + j) == breaks_upto(x, a) + breaks_upto(y, b + j)
            - breaks_upto(y, b),
    decreases j,
{
    let d = spliced(x, a, y, b);
    if j == 0 {
        lemma_splice_head(x, a, y, b, a);
    } else {
        lemma_splice_tail(x, a, y, b, j - 1);
        let i = a + j;
        assert(d[i - 1] == y[b + j - 1]);
        if j >= 2 {
            assert(d[i - 2] == y[b + j - 2]);
        } else if a > 0 {
            assert(d[i - 2] == x[a - 1]);
        }
        if j >= 3 {
            assert(d[i - 3] == y[b + j - 3]);
        } else if j == 2 && a > 0 {
            assert(d[i - 3] == x[a - 1]);
        }
        if b + j < y.len() {
            assert(d[i] == y[b + j]);
        }
        assert(break_ends_at(d, i) == break_ends_at(y, b + j));
    }
}

/// Before a line starts, fewer terminators have ended than the line counts.
pub proof fn lemma_before_line_start(s: Seq<u8>, l: nat, k: int)
    requires
        0 <= k < line_start(s, l),
    ensures
        breaks_upto(s, k) < l,
{
    lemma_line_start_bounds(s, l, 0);
    if breaks_upto(s, k) >= l {
        lemma_line_start_least(s, l, 0, k);
    }
}

/// The lines of a spliced text begin where the lines of its second part
/// begin, moved by as much as the seam.
pub proof fn lemma_splice_line_start(x: Seq<u8>, a: int, y: Seq<u8>, b: int, t: nat)
    requires
        0 <= a <= x.len(),
        0 <= b <= y.len(),
        same_line_start(x, a, y, b),
    ensures
        line_start(spliced(x, a, y, b), breaks_upto(x, a) + t) == a + line_start(
            y,
            breaks_upto(y, b) + t,
        ) - b,
        b <= line_start(y, breaks_upto(y, b) + t) <= y.len(),
{
    let d = spliced(x, a, y, b);
    let la = breaks_upto(x, a);
    let lb = breaks_upto(y, b);
    let q = line_start(y, lb + t);
    lemma_breaks_bounded(y, b);
    lemma_breaks_monotone(y, b, y.len() as int);
    lemma_line_start_bounds(y, lb + t, 0);
    if b > 0 {
        lemma_line_start_at_break(y, b);
    } else {
        lemma_line_start_is_break(y, 0);
    }
    lemma_line_starts_ordered(y, lb as int, (lb + t) as int);
    assert(b <= q);
    let i = a + q - b;
    assert forall|k: int| 0 <= k < i implies breaks_upto(d, k) < la + t by {
        if k < a {
            lemma_splice_head(x, a, y, b, k);
            if a > 0 {
                lemma_breaks_monotone(x, k, a - 1);
            }
        } else {
            lemma_splice_tail(x, a, y, b, k - a);
            lemma_before_line_start(y, lb + t, b + (k - a));
        }
    }
    if q < y.len() {
        lemma_splice_tail(x, a, y, b, q - b);
        if lb + t <= line_breaks(y) {
            lemma_line_start_is_break(y, lb + t);
        } else {
            lemma_line_start_past_end(y, lb + t);
        }
    }
    lemma_line_start_scan(d, la + t, 0, i);
}

/// Tells whether a line terminator of `b` ends just before index `i`.
fn ends_break(b: &[u8], i: usize) -> (r: bool)
    requires
        0 < i <= b@.len(),
    ensures
        r == break_ends_at(b@, i as int),
{
    let last = b[i - 1];
    if last == 0x0A {
        true
    } else if last == 0x0D {
        i == b.len() || b[i] != 0x0A
    } else if last == 0x85 {
        i >= 2 && b[i - 2] == 0xC2
    } else if last == 0xA8 || last == 0xA9 {
        i >= 3 && b[i - 3] == 0xE2 && b[i - 2] == 0x80
    } else {
        false
    }
}

/// Counts the line terminators in `text`; CR LF counts once.
pub fn count_line_breaks(text: &str) -> (n: usize)
    ensures
        n == line_breaks(text.spec_bytes()),
{
    let b = text.as_bytes();
    let mut n: usize = 0;
    let mut i: usize = 0;
    while i < b.len()
        invariant
            i <= b@.len(),
            n <= i,
            n == breaks_upto(b@, i as int),
        decreases b@.len() - i,
    {
        i = i + 1;
        if ends_break(b, i) {
            n = n + 1;
        }
    }
    n
}

/// Rounds `idx` down to the nearest character boundary of `s`.
pub fn pre_char_boundary(s: &str, idx: usize) -> (r: usize)
    ensures
        r == boundary_floor(s.spec_bytes(), idx as int),
        r <= idx,
        is_char_boundary(s.spec_bytes(), r as int),
{
    proof {
        encode_utf8_valid_utf8(s@);
    }
    let mut i = idx;
    while !s.is_char_boundary(i)
        invariant
            i <= idx,
            valid_utf8(s.spec_bytes()),
            boundary_floor(s.spec_bytes(), i as int) == boundary_floor(
                s.spec_bytes(),
                idx as int,
            ),
        decreases i,
    {
        i = i - 1;
    }
    i
}

/// The number of lines of `text`: one more than its line terminators.
pub fn line_count(text: &str) -> (n: usize)
    requires
        text.spec_bytes().len() < usize::MAX,
    ensures
        n == line_total(text.spec_bytes()),
{
    proof {
        lemma_breaks_bounded(text.spec_bytes(), text.spec_bytes().len() as int);
    }
    count_line_breaks(text) + 1
}

/// The byte offset at which line `line` of `text` begins; the length of
/// `text` for a line past the last.
pub fn line_to_byte(text: &str, line: usize) -> (r: usize)
    ensures
        r == line_start(text.spec_bytes(), line as nat),
{
    let b = text.as_bytes();
    let mut n: usize = 0;
    let mut i: usize = 0;
    while i < b.len() && n < line
        invariant
            i <= b@.len(),
            n <= i,
            n == breaks_upto(b@, i as int),
            forall|k: int| 0 <= k < i ==> breaks_upto(b@, k) < line,
        decreases b@.len() - i,
    {
        i = i + 1;
        if ends_break(b, i) {
            n = n + 1;
        }
    }
    proof {
        lemma_line_start_scan(b@, line as nat, 0, i as int);
    }
    i
}

/// The line and column of byte offset `byte` of `text`. An offset inside a
/// character counts as the offset at which that character begins.
pub fn byte_to_position(text: &str, byte: usize) -> (p: Position)
    requires
        byte <= text.spec_bytes().len(),
    ensures
        p.line == line_of(text.spec_bytes(), byte as int),
        p.character == column_of(text.spec_bytes(), byte as int),
{
    let end = pre_char_boundary(text, byte);
    let b = text.as_bytes();
    let mut line: usize = 0;
    let mut start: usize = 0;
    let mut i: usize = 0;
    while i < end
        invariant
            i <= end <= b@.len(),
            line <= i,
            start <= i,
            line == breaks_upto(b@, i as int),
            start == line_start(b@, line as nat),
        decreases end - i,
    {
        i = i + 1;
        if ends_break(b, i) {
            line = line + 1;
            start = i;
            proof {
                lemma_line_start_at_break(b@, i as int);
            }
        }
    }
    Position { line, character: end - start }
}

/// The line that holds byte offset `byte` of `text`.
pub fn byte_to_line(text: &str, byte: usize) -> (line: usize)
    requires
        byte <= text.spec_bytes().len(),
    ensures
        line == line_of(text.spec_bytes(), byte as int),
{
    byte_to_position(text, byte).line
}

/// The bytes of each of a sequence of strings.
pub open spec fn bytes_of_each(lines: Seq<&str>) -> Seq<Seq<u8>> {
    lines.map_values(|l: &str| l.spec_bytes())
}

/// The part of `text` from byte `from` up to byte `to`.
pub fn substr<'a>(text: &'a str, from: usize, to: usize) -> (r: &'a str)
    requires
        from <= to <= text.spec_bytes().len(),
        is_char_boundary(text.spec_bytes(), from as int),
        is_char_boundary(text.spec_bytes(), to as int),
    ensures
        r.spec_bytes() == text.spec_bytes().subrange(from as int, to as int),
{
    let (head, _) = text.split_at(to);
    proof {
        encode_utf8_valid_utf8(text@);
        encode_utf8_valid_utf8(head@);
        is_char_boundary_start_end_of_seq(head.spec_bytes());
        if from < to {
            is_char_boundary_iff_not_is_continuation_byte(text.spec_bytes(), from as int);
            assert(head.spec_bytes()[from as int] == text.spec_bytes()[from as int]);
            is_char_boundary_iff_not_is_continuation_byte(head.spec_bytes(), from as int);
        }
    }
    let (_, r) = head.split_at(from);
    assert(r.spec_bytes() =~= text.spec_bytes().subrange(from as int, to as int));
    r
}

/// Tells whether two strings hold the same bytes.
pub fn str_eq(a: &str, b: &str) -> (r: bool)
    ensures
        r == (a.spec_bytes() == b.spec_bytes()),
{
    let x = a.as_bytes();
    let y = b.as_bytes();
    if x.len() != y.len() {
        return false;
    }
    let mut i: usize = 0;
    while i < x.len()
        invariant
            i <= x@.len(),
            x@.len() == y@.len(),
            x@ == a.spec_bytes(),
            y@ == b.spec_bytes(),
            forall|k: int| 0 <= k < i ==> x@[k] == y@[k],
        decreases x@.len() - i,
    {
        if x[i] != y[i] {
            assert(a.spec_bytes()[i as int] != b.spec_bytes()[i as int]);
            return false;
        }
        i = i + 1;
    }
    assert(x@ =~= y@);
    true
}

/// The byte offsets at which the lines of `text` begin, followed by the
/// length of `text`.
pub fn line_starts(text: &str) -> (starts: Vec<usize>)
    ensures
        is_line_table(starts@, text.spec_bytes()),
{
    let b = text.as_bytes();
    let mut starts: Vec<usize> = Vec::new();
    starts.push(0);
    let mut i: usize = 0;
    while i < b.len()
        invariant
            i <= b@.len(),
            starts@.len() == breaks_upto(b@, i as int) + 1,
            forall|l: int| 0 <= l < starts@.len() ==> starts@[l] == line_start(b@, l as nat),
        decreases b@.len() - i,
    {
        i = i + 1;
        if ends_break(b, i) {
            starts.push(i);
            proof {
                lemma_line_start_at_break(b@, i as int);
            }
        }
    }
    proof {
        lemma_line_start_past_end(b@, line_total(b@));
    }
    starts.push(b.len());
    starts
}

/// The lines of `text`, each with its terminator, in order.
pub fn split_lines<'a>(text: &'a str) -> (lines: Vec<&'a str>)
    ensures
        bytes_of_each(lines@) == lines_of(text.spec_bytes()),
{
    let starts = line_starts(text);
    let ghost s = text.spec_bytes();
    let mut lines: Vec<&'a str> = Vec::new();
    let mut l: usize = 0;
    let n = starts.len() - 1;
    while l < n
        invariant
            s == text.spec_bytes(),
            n == starts@.len() - 1,
            starts@.len() == line_total(s) + 1,
            forall|k: int| 0 <= k < starts@.len() ==> starts@[k] == line_start(s, k as nat),
            l <= n,
            lines@.len() == l,
            forall|k: int| 0 <= k < l ==> (#[trigger] lines@[k]).spec_bytes() == line_bytes(s, k),
        decreases n - l,
    {
        proof {
            encode_utf8_valid_utf8(text@);
            lemma_line_start_is_boundary(s, l as nat);
            lemma_line_start_is_boundary(s, (l + 1) as nat);
            lemma_line_start_bounds(s, l as nat, 0);
        }
        let line = substr(text, starts[l], starts[l + 1]);
        lines.push(line);
        l = l + 1;
    }
    assert(bytes_of_each(lines@) =~= lines_of(s));
    lines
}

/// The number of bytes of `text` after its last line terminator.
pub fn last_line_length(text: &str) -> (n: usize)
    ensures
        n == last_line_len(text.spec_bytes()),
{
    let breaks = count_line_breaks(text);
    let start = line_to_byte(text, breaks);
    let len = text.as_bytes().len();
    proof {
        lemma_line_start_bounds(text.spec_bytes(), breaks as nat, 0);
        assert(start <= len);
    }
    len - start
}

/// The line and column of byte offset `byte` of `text`, found in the table
/// of its line starts. An offset inside a character counts as the offset at
/// which that character begins.
pub fn position_in(text: &str, starts: &Vec<usize>, byte: usize) -> (p: Position)
    requires
        is_line_table(starts@, text.spec_bytes()),
        byte <= text.spec_bytes().len(),
    ensures
        p.line == line_of(text.spec_bytes(), byte as int),
        p.character == column_of(text.spec_bytes(), byte as int),
{
    let ghost s = text.spec_bytes();
    let end = pre_char_boundary(text, byte);
    let mut lo: usize = 0;
    let mut hi: usize = starts.len() - 1;
    proof {
        lemma_line_start_is_break(s, 0);
    }
    while hi - lo > 1
        invariant
            is_line_table(starts@, s),
            0 <= lo < hi <= line_breaks(s) + 1,
            starts@[lo as int] <= end,
            hi <= line_breaks(s) ==> end < starts@[hi as int],
        decreases hi - lo,
    {
        let mid = lo + (hi - lo) / 2;
        if starts[mid] <= end {
            lo = mid;
        } else {
            hi = mid;
        }
    }
    proof {
        lemma_line_start_is_break(s, lo as nat);
        lemma_breaks_monotone(s, starts@[lo as int] as int, end as int);
        lemma_breaks_monotone(s, end as int, s.len() as int);
        if breaks_upto(s, end as int) > lo {
            lemma_line_start_least(s, (lo + 1) as nat, 0, end as int);
        }
    }
    Position { line: lo, character: end - starts[lo] }
}

} // verus!
