//! Edit scripts: what a sequence comparison reports, and the test that a
//! script is one that can be turned into change events.

use vstd::prelude::*;

verus! {

/// One step of an edit script. `old` and `new` are indices into the two
/// sequences that were compared.
#[derive(Clone, Copy, Debug, PartialEq, Eq, Structural)]
pub enum EditOp {
    /// `len` items of the old sequence, from `old` on, are left out.
    Delete { old: usize, len: usize },
    /// `new_len` items of the new sequence, from `new` on, are put in before
    /// item `old` of the old sequence.
    Insert { old: usize, new: usize, new_len: usize },
    /// `old_len` items of the old sequence, from `old` on, give way to
    /// `new_len` items of the new sequence, from `new` on.
    Replace { old: usize, old_len: usize, new: usize, new_len: usize },
}

impl EditOp {
    /// Where the step begins in the old sequence.
    pub open spec fn old_start(self) -> int {
        match self {
            EditOp::Delete { old, .. } => old as int,
            EditOp::Insert { old, .. } => old as int,
            EditOp::Replace { old, .. } => old as int,
        }
    }

    /// How many items of the old sequence the step takes away.
    pub open spec fn old_count(self) -> int {
        match self {
            EditOp::Delete { len, .. } => len as int,
            EditOp::Insert { .. } => 0,
            EditOp::Replace { old_len, .. } => old_len as int,
        }
    }

    /// Where the step begins in the new sequence, when the steps before it
    /// have come as far as `oc` in the old sequence and `nc` in the new one.
    /// A deletion names no place in the new sequence: it lies as far behind
    /// `nc` as it lies behind `oc`.
    pub open spec fn new_start(self, oc: int, nc: int) -> int {
        match self {
            EditOp::Delete { old, .. } => nc + (old - oc),
            EditOp::Insert { new, .. } => new as int,
            EditOp::Replace { new, .. } => new as int,
        }
    }

    /// How many items of the new sequence the step brings in.
    pub open spec fn new_count(self) -> int {
        match self {
            EditOp::Delete { .. } => 0,
            EditOp::Insert { new_len, .. } => new_len as int,
            EditOp::Replace { new_len, .. } => new_len as int,
        }
    }

    /// The first old index after the step.
    pub open spec fn old_end(self) -> int {
        self.old_start() + self.old_count()
    }

    /// The first new index after the step, the cursors being `oc` and `nc`.
    pub open spec fn new_end(self, oc: int, nc: int) -> int {
        self.new_start(oc, nc) + self.new_count()
    }

    /// A deletion takes something away, an insertion brings something in, a
    /// replacement does both.
    pub open spec fn has_effect(self) -> bool {
        match self {
            EditOp::Delete { len, .. } => len > 0,
            EditOp::Insert { new_len, .. } => new_len > 0,
            EditOp::Replace { old_len, new_len, .. } => old_len > 0 && new_len > 0,
        }
    }

    /// Where the step begins in the old sequence.
    pub fn old_index(&self) -> (r: usize)
        ensures
            r == self.old_start(),
    {
        match self {
            EditOp::Delete { old, .. } => *old,
            EditOp::Insert { old, .. } => *old,
            EditOp::Replace { old, .. } => *old,
        }
    }

    /// How many items of the old sequence the step takes away.
    pub fn old_len(&self) -> (r: usize)
        ensures
            r == self.old_count(),
    {
        match self {
            EditOp::Delete { len, .. } => *len,
            EditOp::Insert { .. } => 0,
            EditOp::Replace { old_len, .. } => *old_len,
        }
    }

    /// Where the step begins in the new sequence, the steps before it having
    /// come as far as `oc` in the old sequence and `nc` in the new one.
    pub fn new_index(&self, oc: usize, nc: usize) -> (r: usize)
        requires
            oc <= self.old_start(),
            nc + (self.old_start() - oc) <= usize::MAX,
        ensures
            r == self.new_start(oc as int, nc as int),
    {
        match self {
            EditOp::Delete { old, .. } => nc + (*old - oc),
            EditOp::Insert { new, .. } => *new,
            EditOp::Replace { new, .. } => *new,
        }
    }

    /// How many items of the new sequence the step brings in.
    pub fn new_len(&self) -> (r: usize)
        ensures
            r == self.new_count(),
    {
        match self {
            EditOp::Delete { .. } => 0,
            EditOp::Insert { new_len, .. } => *new_len,
            EditOp::Replace { new_len, .. } => *new_len,
        }
    }

    /// Whether the step takes something away or brings something in, a
    /// replacement both.
    fn effective(&self) -> (r: bool)
        ensures
            r == self.has_effect(),
    {
        match self {
            EditOp::Delete { len, .. } => *len > 0,
            EditOp::Insert { new_len, .. } => *new_len > 0,
            EditOp::Replace { old_len, new_len, .. } => *old_len > 0 && *new_len > 0,
        }
    }
}

/// The step at place `k` of a script continues from the cursors `oc` and `nc`
/// within sequences of `m` and `n` items: it lies as far behind `nc` as behind
/// `oc`, at least one item behind unless it is the first step, it stays
/// within both sequences, and it has an effect.
pub open spec fn step_fits(op: EditOp, first: bool, oc: int, nc: int, m: int, n: int) -> bool {
    &&& op.old_start() - oc >= (if first {
        0int
    } else {
        1int
    })
    &&& op.new_start(oc, nc) - nc == op.old_start() - oc
    &&& op.old_end() <= m
    &&& op.new_end(oc, nc) <= n
    &&& op.has_effect()
}

/// The steps of `ops` from place `k` on continue from the cursors `oc` and
/// `nc`, and after the last step as many items are left in the old sequence
/// as in the new one.
pub open spec fn well_formed_from(
    ops: Seq<EditOp>,
    k: int,
    oc: int,
    nc: int,
    m: int,
    n: int,
) -> bool
    decreases ops.len() - k,
{
    if k >= ops.len() {
        0 <= m - oc == n - nc
    } else {
        &&& step_fits(ops[k], k == 0, oc, nc, m, n)
        &&& well_formed_from(ops, k + 1, ops[k].old_end(), ops[k].new_end(oc, nc), m, n)
    }
}

/// How far in the old sequence a script has come before its step `i`.
pub open spec fn old_cursor(script: Seq<EditOp>, i: int) -> int {
    if i <= 0 {
        0
    } else {
        script[i - 1].old_end()
    }
}

/// How far in the new sequence a script has come before its step `i`.
pub open spec fn new_cursor(script: Seq<EditOp>, i: int) -> int
    decreases i,
{
    if i <= 0 {
        0
    } else {
        script[i - 1].new_end(old_cursor(script, i - 1), new_cursor(script, i - 1))
    }
}

/// `ops` is an edit script between a sequence of `m` items and one of `n`
/// items: its steps come in rising order, apart from one another, inside both
/// sequences, and what lies between them is as long on one side as on the
/// other.
pub open spec fn well_formed(ops: Seq<EditOp>, m: int, n: int) -> bool {
    well_formed_from(ops, 0, 0, 0, m, n)
}

/// The items that a script leaves alone are the same on both sides: from the
/// cursors to the step at `k`, between the later steps, and after the last.
pub open spec fn gaps_agree_from<T>(
    ops: Seq<EditOp>,
    k: int,
    oc: int,
    nc: int,
    old: Seq<T>,
    new: Seq<T>,
) -> bool
    decreases ops.len() - k,
{
    if k >= ops.len() {
        old.subrange(oc, old.len() as int) == new.subrange(nc, new.len() as int)
    } else {
        &&& old.subrange(oc, ops[k].old_start()) == new.subrange(nc, ops[k].new_start(oc, nc))
        &&& gaps_agree_from(ops, k + 1, ops[k].old_end(), ops[k].new_end(oc, nc), old, new)
    }
}

/// `ops` is a well-formed script from `old` to `new` that leaves alone only
/// items that are equal on both sides.
pub open spec fn transforms<T>(ops: Seq<EditOp>, old: Seq<T>, new: Seq<T>) -> bool {
    &&& well_formed(ops, old.len() as int, new.len() as int)
    &&& gaps_agree_from(ops, 0, 0, 0, old, new)
}

/// The script of at most one step that exchanges all `m` old items for all
/// `n` new items.
pub open spec fn whole_script(m: usize, n: usize) -> Seq<EditOp> {
    if m == 0 && n == 0 {
        seq![]
    } else if m == 0 {
        seq![EditOp::Insert { old: 0, new: 0, new_len: n }]
    } else if n == 0 {
        seq![EditOp::Delete { old: 0, len: m }]
    } else {
        seq![EditOp::Replace { old: 0, old_len: m, new: 0, new_len: n }]
    }
}

/// Records the steps that a sequence comparison reports, in order.
pub struct ScriptRecorder {
    pub ops: Vec<EditOp>,
}

impl diffs::Diff for ScriptRecorder {
    type Error = ();

    /// A deletion is reported: it is recorded after the steps so far.
    fn delete(&mut self, at: usize, len: usize) -> (r: Result<(), ()>)
        ensures
            final(self).ops@ == old(self).ops@.push(EditOp::Delete { old: at, len }),
            r is Ok,
    {
        self.ops.push(EditOp::Delete { old: at, len });
        Ok(())
    }

    /// An insertion is reported: it is recorded after the steps so far.
    fn insert(&mut self, at: usize, new: usize, new_len: usize) -> (r: Result<(), ()>)
        ensures
            final(self).ops@ == old(self).ops@.push(EditOp::Insert { old: at, new, new_len }),
            r is Ok,
    {
        self.ops.push(EditOp::Insert { old: at, new, new_len });
        Ok(())
    }

    /// A replacement is reported: it is recorded after the steps so far.
    fn replace(&mut self, at: usize, old_len: usize, new: usize, new_len: usize) -> (r: Result<
        (),
        (),
    >)
        ensures
            final(self).ops@ == old(self).ops@.push(
                EditOp::Replace { old: at, old_len, new, new_len },
            ),
            r is Ok,
    {
        self.ops.push(EditOp::Replace { old: at, old_len, new, new_len });
        Ok(())
    }
}

/// The steps that the Myers comparison of two sequences of numbers reports
/// to a recorder, deletions that meet insertions joined into replacements.
pub uninterp spec fn myers_script(old: Seq<u64>, new: Seq<u64>) -> Seq<EditOp>;

/// `diffs::myers::diff`, run over all of `old` and `new` with a
/// `diffs::Replace` around a recorder. The comparison reads nothing but the
/// two sequences, so the recorded steps are a function of them; nothing else
/// is claimed of the steps. The lengths are bounded because the comparison
/// adds them up in an `isize`. `diffs::Replace` stops the program where the
/// comparison reports deletions or insertions that do not follow one
/// another; the comparison reports them in order.
#[verifier::external_body]
pub(crate) fn myers(old: &[u64], new: &[u64]) -> (ops: Vec<EditOp>)
    requires
        old@.len() + new@.len() + 2 <= isize::MAX,
    ensures
        ops@ == myers_script(old@, new@),
{
    let mut rec = ScriptRecorder { ops: Vec::new() };
    diffs::myers::diff(&mut diffs::Replace::new(&mut rec), old, 0, old.len(), new, 0, new.len())
        .unwrap_or(());
    rec.ops
}

/// Each byte as a number of 64 bits.
pub open spec fn widened(bytes: Seq<u8>) -> Seq<u64> {
    bytes.map_values(|b: u8| b as u64)
}

/// Each byte of `bytes` as a number of 64 bits.
pub fn widen(bytes: &[u8]) -> (wide: Vec<u64>)
    ensures
        wide@ == widened(bytes@),
{
    let mut wide: Vec<u64> = Vec::new();
    let mut i: usize = 0;
    while i < bytes.len()
        invariant
            i <= bytes@.len(),
            wide@.len() == i,
            forall|k: int| 0 <= k < i ==> wide@[k] == bytes@[k] as u64,
        decreases bytes@.len() - i,
    {
        wide.push(bytes[i] as u64);
        i = i + 1;
    }
    assert(wide@ =~= widened(bytes@));
    wide
}

/// Tells whether `ops` is a well-formed script between sequences of `m` and
/// `n` items.
pub fn is_well_formed(ops: &Vec<EditOp>, m: usize, n: usize) -> (r: bool)
    ensures
        r == well_formed(ops@, m as int, n as int),
{
    let mut k: usize = 0;
    let mut oc: usize = 0;
    let mut nc: usize = 0;
    while k < ops.len()
        invariant
            k <= ops@.len(),
            oc <= m,
            nc <= n,
            well_formed(ops@, m as int, n as int) == well_formed_from(
                ops@,
                k as int,
                oc as int,
                nc as int,
                m as int,
                n as int,
            ),
        decreases ops@.len() - k,
    {
        let op = ops[k];
        let at = op.old_index();
        if at < oc || at - oc > n - nc || (k > 0 && at == oc) || !op.effective() {
            return false;
        }
        let to = op.new_index(oc, nc);
        if to != nc + (at - oc) {
            return false;
        }
        if at > m || op.old_len() > m - at || op.new_len() > n - to {
            return false;
        }
        oc = at + op.old_len();
        nc = to + op.new_len();
        k = k + 1;
    }
    m - oc == n - nc
}

/// Tells whether `count` bytes of `a` from `i` on are the bytes of `b` from
/// `j` on.
fn same_bytes(a: &[u8], i: usize, b: &[u8], j: usize, count: usize) -> (r: bool)
    requires
        i + count <= a@.len(),
        j + count <= b@.len(),
    ensures
        r == (a@.subrange(i as int, i + count) == b@.subrange(j as int, j + count)),
{
    let ghost x = a@.subrange(i as int, i + count);
    let ghost y = b@.subrange(j as int, j + count);
    let limit_a = a.len();
    let limit_b = b.len();
    let mut d: usize = 0;
    while d < count
        invariant
            d <= count,
            limit_a == a@.len(),
            limit_b == b@.len(),
            i + count <= a@.len(),
            j + count <= b@.len(),
            x == a@.subrange(i as int, i + count),
            y == b@.subrange(j as int, j + count),
            forall|e: int| 0 <= e < d ==> x[e] == y[e],
        decreases count - d,
    {
        if a[i + d] != b[j + d] {
            assert(x[d as int] != y[d as int]);
            return false;
        }
        d = d + 1;
    }
    assert(x =~= y);
    true
}

/// Tells whether a well-formed script leaves alone only bytes that are the
/// same in `a` and in `b`.
pub fn leaves_equal_bytes(ops: &Vec<EditOp>, a: &[u8], b: &[u8]) -> (r: bool)
    requires
        well_formed(ops@, a@.len() as int, b@.len() as int),
    ensures
        r == gaps_agree_from(ops@, 0, 0, 0, a@, b@),
{
    let limit_a = a.len();
    let limit_b = b.len();
    let mut k: usize = 0;
    let mut oc: usize = 0;
    let mut nc: usize = 0;
    while k < ops.len()
        invariant
            k <= ops@.len(),
            limit_a == a@.len(),
            limit_b == b@.len(),
            oc <= a@.len(),
            nc <= b@.len(),
            well_formed_from(
                ops@,
                k as int,
                oc as int,
                nc as int,
                a@.len() as int,
                b@.len() as int,
            ),
            gaps_agree_from(ops@, 0, 0, 0, a@, b@) == gaps_agree_from(
                ops@,
                k as int,
                oc as int,
                nc as int,
                a@,
                b@,
            ),
        decreases ops@.len() - k,
    {
        let op = ops[k];
        if !same_bytes(a, oc, b, nc, op.old_index() - oc) {
            return false;
        }
        let to = op.new_index(oc, nc);
        oc = op.old_index() + op.old_len();
        nc = to + op.new_len();
        k = k + 1;
    }
    same_bytes(a, oc, b, nc, a.len() - oc)
}

/// The script of at most one step that exchanges everything.
pub fn whole(m: usize, n: usize) -> (ops: Vec<EditOp>)
    ensures
        ops@ == whole_script(m, n),
{
    let mut ops: Vec<EditOp> = Vec::new();
    if m == 0 && n == 0 {
    } else if m == 0 {
        ops.push(EditOp::Insert { old: 0, new: 0, new_len: n });
    } else if n == 0 {
        ops.push(EditOp::Delete { old: 0, len: m });
    } else {
        ops.push(EditOp::Replace { old: 0, old_len: m, new: 0, new_len: n });
    }
    assert(ops@ =~= whole_script(m, n));
    ops
}

/// The script that exchanges everything is well-formed, and it leaves
/// nothing alone.
pub proof fn lemma_whole_script_transforms<T>(old: Seq<T>, new: Seq<T>)
    requires
        old.len() <= usize::MAX,
        new.len() <= usize::MAX,
    ensures
        transforms(whole_script(old.len() as usize, new.len() as usize), old, new),
{
    reveal_with_fuel(well_formed_from, 3);
    reveal_with_fuel(gaps_agree_from, 3);
    assert(old.subrange(0, 0) =~= new.subrange(0, 0));
    assert(old.subrange(old.len() as int, old.len() as int) =~= new.subrange(
        new.len() as int,
        new.len() as int,
    ));
}

} // verus!
