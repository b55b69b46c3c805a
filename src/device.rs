use vstd::prelude::*;

verus! {

/// A byte-range copy between two blocks, counted in records.
#[derive(Debug, Clone, Copy, PartialEq, Eq, Structural)]
pub struct CopyRange {
    pub src: usize,
    pub dst: usize,
    pub len: usize,
}

/// One command for the device, to be run in order on one command stream.
pub enum DeviceOp<T> {
    /// Allocate a block of `capacity` records, copy each range of the current
    /// block into it (in order), then make it the current block.
    Grow { capacity: usize, copies: Vec<CopyRange> },
    /// Write records into the current block, starting at record `index`.
    Write { index: usize, values: Vec<T> },
    /// Exchange the records at `a` and `b` of the current block.
    Swap { a: usize, b: usize },
}

/// Whether `op` grows the block to `capacity` records filled by `copies`.
pub open spec fn is_grow<T>(op: DeviceOp<T>, capacity: nat, copies: Seq<CopyRange>) -> bool {
    match op {
        DeviceOp::Grow { capacity: c, copies: cs } => c == capacity && cs@ == copies,
        _ => false,
    }
}

/// Whether `op` writes the single record `value` at `index`.
pub open spec fn is_record_write<T>(op: DeviceOp<T>, index: int, value: T) -> bool {
    match op {
        DeviceOp::Write { index: i, values } => i == index && values@ == seq![value],
        _ => false,
    }
}

/// Whether `op` exchanges the records at `a` and `b`.
pub open spec fn is_swap<T>(op: DeviceOp<T>, a: int, b: int) -> bool {
    match op {
        DeviceOp::Swap { a: x, b: y } => x == a && y == b,
        _ => false,
    }
}

/// What the new block holds at `j` after the copies: the record of the last
/// copy that covers `j`, or nothing known when none does.
pub open spec fn copied_into<T>(old: Seq<Option<T>>, copies: Seq<CopyRange>, j: int) -> Option<T>
    decreases copies.len(),
{
    if copies.len() == 0 {
        None
    } else {
        let c = copies.last();
        let k = c.src + (j - c.dst);
        if c.dst <= j < c.dst + c.len && 0 <= k < old.len() {
            old[k]
        } else {
            copied_into(old, copies.drop_last(), j)
        }
    }
}

/// The contents of a block of `capacity` records filled by `copies` from `old`.
pub open spec fn grown<T>(old: Seq<Option<T>>, capacity: nat, copies: Seq<CopyRange>) -> Seq<Option<T>> {
    Seq::new(capacity, |j: int| copied_into(old, copies, j))
}

/// `s` with `values` written from `index` on (records past the end are dropped).
pub open spec fn written<T>(s: Seq<Option<T>>, index: int, values: Seq<T>) -> Seq<Option<T>> {
    Seq::new(
        s.len(),
        |j: int|
            if index <= j < index + values.len() {
                Some(values[j - index])
            } else {
                s[j]
            },
    )
}

/// `s` with the records at `a` and `b` exchanged.
pub open spec fn swapped<T>(s: Seq<Option<T>>, a: int, b: int) -> Seq<Option<T>> {
    s.update(a, s[b]).update(b, s[a])
}

/// Whether `op` stays inside a block of `len` records.
pub open spec fn op_in_bounds<T>(len: nat, op: DeviceOp<T>) -> bool {
    match op {
        DeviceOp::Grow { capacity, copies } => forall|i: int|
            0 <= i < copies@.len() ==> {
                &&& (#[trigger] copies@[i]).src + copies@[i].len <= len
                &&& copies@[i].dst + copies@[i].len <= capacity
            },
        DeviceOp::Write { index, values } => index + values@.len() <= len,
        DeviceOp::Swap { a, b } => a < len && b < len,
    }
}

/// The block after one command.
pub open spec fn apply_op<T>(s: Seq<Option<T>>, op: DeviceOp<T>) -> Seq<Option<T>> {
    match op {
        DeviceOp::Grow { capacity, copies } => grown(s, capacity as nat, copies@),
        DeviceOp::Write { index, values } => written(s, index as int, values@),
        DeviceOp::Swap { a, b } => if a < s.len() && b < s.len() {
            swapped(s, a as int, b as int)
        } else {
            s
        },
    }
}

/// The block after a list of commands, run in order.
pub open spec fn apply_ops<T>(s: Seq<Option<T>>, ops: Seq<DeviceOp<T>>) -> Seq<Option<T>>
    decreases ops.len(),
{
    if ops.len() == 0 {
        s
    } else {
        apply_op(apply_ops(s, ops.drop_last()), ops.last())
    }
}

/// Whether every command stays inside the block it runs on.
pub open spec fn ops_in_bounds<T>(s: Seq<Option<T>>, ops: Seq<DeviceOp<T>>) -> bool
    decreases ops.len(),
{
    ops.len() == 0 || (ops_in_bounds(s, ops.drop_last()) && op_in_bounds(
        apply_ops(s, ops.drop_last()).len(),
        ops.last(),
    ))
}

pub proof fn lemma_apply_ops_push<T>(s: Seq<Option<T>>, ops: Seq<DeviceOp<T>>, op: DeviceOp<T>)
    ensures
        apply_ops(s, ops.push(op)) == apply_op(apply_ops(s, ops), op),
        ops_in_bounds(s, ops.push(op)) == (ops_in_bounds(s, ops) && op_in_bounds(
            apply_ops(s, ops).len(),
            op,
        )),
{
    assert(ops.push(op).drop_last() =~= ops);
}

/// A copy whose target starts at or past `j` leaves `j` as it was.
pub proof fn lemma_copied_into_push_after<T>(old: Seq<Option<T>>, copies: Seq<CopyRange>, c: CopyRange, j: int)
    requires
        j < c.dst,
    ensures
        copied_into(old, copies.push(c), j) == copied_into(old, copies, j),
{
    assert(copies.push(c).drop_last() =~= copies);
}

/// A copy that covers `j` decides what `j` holds.
pub proof fn lemma_copied_into_push_cover<T>(old: Seq<Option<T>>, copies: Seq<CopyRange>, c: CopyRange, j: int)
    requires
        c.dst <= j < c.dst + c.len,
        0 <= c.src + (j - c.dst) < old.len(),
    ensures
        copied_into(old, copies.push(c), j) == old[c.src + (j - c.dst)],
{
}

} // verus!
