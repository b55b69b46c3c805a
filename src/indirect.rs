use vstd::prelude::*;
use crate::columnar::ColumnChange;

verus! {

/// The arguments of one indexed indirect draw, laid out as five 4-byte words:
/// index count, instance count, first index, base vertex, first instance.
#[derive(Debug, Clone, Copy, PartialEq, Eq, Structural)]
pub struct DrawArgs {
    pub index_count: u32,
    pub instance_count: u32,
    pub first_index: u32,
    pub base_vertex: i32,
    pub first_instance: u32,
}

/// A write of one 4-byte word at `byte_offset` of the draw-argument block.
#[derive(Debug, Clone, Copy, PartialEq, Eq, Structural)]
pub struct PartialWrite {
    pub byte_offset: u64,
    pub value: u32,
}

/// Bytes per draw-argument record.
pub const ITEM_BYTE_SIZE: u64 = 20;
/// Where the instance count sits in a record.
pub const ARG_INSTANCE_COUNT_BYTE_OFFSET: u64 = 4;
/// Where the first instance sits in a record.
pub const ARG_FIRST_INSTANCE_BYTE_OFFSET: u64 = 16;

/// `args` after the draw-argument updates that `changes` call for: a moved
/// column gets its first instance, a resized one its instance count.
pub open spec fn synced(args: Seq<DrawArgs>, changes: Seq<(u16, ColumnChange)>) -> Seq<DrawArgs>
    decreases changes.len(),
{
    if changes.len() == 0 {
        args
    } else {
        let prev = synced(args, changes.drop_last());
        let (k, ch) = changes.last();
        match ch {
            ColumnChange::Moved { new_offset } => prev.update(
                k as int,
                DrawArgs { first_instance: new_offset as u32, ..prev[k as int] },
            ),
            ColumnChange::Resized { new_size } => prev.update(
                k as int,
                DrawArgs { instance_count: new_size as u32, ..prev[k as int] },
            ),
        }
    }
}

/// Whether every change of `changes` names a record below `len` and carries
/// a value that fits a 4-byte word.
pub open spec fn changes_fit(len: nat, changes: Seq<(u16, ColumnChange)>) -> bool {
    forall|x: int| 0 <= x < changes.len() ==> {
        &&& (#[trigger] changes[x]).0 < len
        &&& match changes[x].1 {
            ColumnChange::Moved { new_offset } => new_offset <= u32::MAX,
            ColumnChange::Resized { new_size } => new_size <= u32::MAX,
        }
    }
}

/// A block of draw-argument records, one per drawable region. Only the
/// instance count and the first instance are ever rewritten, each by a
/// 4-byte partial write queued for the device.
pub struct IndirectBuffer {
    records: Vec<DrawArgs>,
    writes: Vec<PartialWrite>,
}

impl IndirectBuffer {
    /// The records as the device holds them once the queued writes have run.
    pub closed spec fn args(&self) -> Seq<DrawArgs> {
        self.records@
    }

    /// The queued partial writes, oldest first.
    pub closed spec fn pending_writes(&self) -> Seq<PartialWrite> {
        self.writes@
    }

    pub fn new(records: Vec<DrawArgs>) -> (r: Self)
        ensures
            r.args() == records@,
            r.pending_writes().len() == 0,
    {
        IndirectBuffer { records, writes: Vec::new() }
    }

    pub fn len(&self) -> (r: usize)
        ensures
            r == self.args().len(),
    {
        self.records.len()
    }

    /// The records, as the device holds them once the queued writes have run.
    pub fn records(&self) -> (r: &Vec<DrawArgs>)
        ensures
            r@ == self.args(),
    {
        &self.records
    }

    /// Sets the instance count of record `index`.
    pub fn write_instance_count_at_index(&mut self, index: u32, instance_count: u32)
        requires
            index < old(self).args().len(),
        ensures
            final(self).args() == old(self).args().update(
                index as int,
                DrawArgs { instance_count, ..old(self).args()[index as int] },
            ),
            final(self).pending_writes() == old(self).pending_writes().push(
                PartialWrite {
                    byte_offset: (ARG_INSTANCE_COUNT_BYTE_OFFSET + index * ITEM_BYTE_SIZE) as u64,
                    value: instance_count,
                },
            ),
    {
        let i = index as usize;
        let old_args = self.records[i];
        self.records.set(i, DrawArgs { instance_count, ..old_args });
        self.writes.push(
            PartialWrite {
                byte_offset: ARG_INSTANCE_COUNT_BYTE_OFFSET + index as u64 * ITEM_BYTE_SIZE,
                value: instance_count,
            },
        );
    }

    /// Sets the first instance of record `index`.
    pub fn write_first_instance_at_index(&mut self, index: u32, first_instance: u32)
        requires
            index < old(self).args().len(),
        ensures
            final(self).args() == old(self).args().update(
                index as int,
                DrawArgs { first_instance, ..old(self).args()[index as int] },
            ),
            final(self).pending_writes() == old(self).pending_writes().push(
                PartialWrite {
                    byte_offset: (ARG_FIRST_INSTANCE_BYTE_OFFSET + index * ITEM_BYTE_SIZE) as u64,
                    value: first_instance,
                },
            ),
    {
        let i = index as usize;
        let old_args = self.records[i];
        self.records.set(i, DrawArgs { first_instance, ..old_args });
        self.writes.push(
            PartialWrite {
                byte_offset: ARG_FIRST_INSTANCE_BYTE_OFFSET + index as u64 * ITEM_BYTE_SIZE,
                value: first_instance,
            },
        );
    }

    /// Brings the records in line with a change report of a columnar storage
    /// whose column `k` is drawn by record `k`.
    pub fn apply_column_changes(&mut self, changes: &Vec<(u16, ColumnChange)>)
        requires
            changes_fit(old(self).args().len(), changes@),
        ensures
            final(self).args() == synced(old(self).args(), changes@),
            final(self).pending_writes().len() == old(self).pending_writes().len() + changes@.len(),
    {
        let n = changes.len();
        let mut t: usize = 0;
        while t < n
            invariant
                n == changes@.len(),
                t <= n,
                changes_fit(old(self).args().len(), changes@),
                self.args().len() == old(self).args().len(),
                self.args() == synced(old(self).args(), changes@.subrange(0, t as int)),
                self.pending_writes().len() == old(self).pending_writes().len() + t,
            decreases n - t,
        {
            let (k, ch) = changes[t];
            proof {
                assert(changes@.subrange(0, t + 1).drop_last() =~= changes@.subrange(0, t as int));
                assert(changes@[t as int] == (k, ch));
            }
            match ch {
                ColumnChange::Moved { new_offset } => {
                    self.write_first_instance_at_index(k as u32, new_offset as u32);
                },
                ColumnChange::Resized { new_size } => {
                    self.write_instance_count_at_index(k as u32, new_size as u32);
                },
            }
            t = t + 1;
        }
        proof {
            assert(changes@.subrange(0, n as int) =~= changes@);
        }
    }

    /// Hands out the queued partial writes, oldest first.
    pub fn take_writes(&mut self) -> (r: Vec<PartialWrite>)
        ensures
            r@ == old(self).pending_writes(),
            final(self).pending_writes().len() == 0,
            final(self).args() == old(self).args(),
    {
        let mut r: Vec<PartialWrite> = Vec::new();
        r.append(&mut self.writes);
        proof {
            assert(r@ =~= old(self).writes@);
        }
        r
    }
}

} // verus!
