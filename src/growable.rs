use vstd::prelude::*;
use crate::device::{
    apply_op, apply_ops, copied_into, grown, is_grow, is_record_write, is_swap, lemma_apply_ops_push,
    op_in_bounds, ops_in_bounds, swapped,
    CopyRange, DeviceOp,
};

verus! {

/// The capacity a block grows to when `required` records must fit in `capacity`.
pub open spec fn grow_target(capacity: nat, required: nat) -> nat {
    let doubled = if capacity == 0 { 2 } else { 2 * capacity };
    if doubled >= required { doubled } else { required }
}

/// A block of device memory holding up to `capacity` records, which grows by
/// doubling and keeps what it held.
///
/// The block is not touched here: the changes are queued as [`DeviceOp`]s,
/// to be taken by [`Growable::take_commands`] and run in order on the device.
/// `contents()` is what the block holds once every queued command has run;
/// `None` marks a record whose value nothing guarantees.
pub struct Growable<T> {
    capacity: usize,
    commands: Vec<DeviceOp<T>>,
    committed: Ghost<Seq<Option<T>>>,
    contents: Ghost<Seq<Option<T>>>,
}

impl<T> Growable<T> {
    pub closed spec fn spec_capacity(&self) -> nat {
        self.capacity as nat
    }

    /// The block's records once the queued commands have run.
    pub closed spec fn contents(&self) -> Seq<Option<T>> {
        self.contents@
    }

    /// The block's records before the queued commands run.
    pub closed spec fn committed(&self) -> Seq<Option<T>> {
        self.committed@
    }

    /// The queued commands.
    pub closed spec fn pending_ops(&self) -> Seq<DeviceOp<T>> {
        self.commands@
    }

    pub open spec fn wf(&self) -> bool {
        &&& self.contents().len() == self.spec_capacity()
        &&& apply_ops(self.committed(), self.pending_ops()) == self.contents()
        &&& ops_in_bounds(self.committed(), self.pending_ops())
    }

    /// A block of `capacity` records whose first records are `initial`.
    pub fn new_with_capacity(initial: Vec<T>, capacity: usize) -> (r: Self)
        requires
            initial@.len() <= capacity,
        ensures
            r.wf(),
            r.spec_capacity() == capacity,
            r.committed() == Seq::<Option<T>>::empty(),
            r.contents() == Seq::new(
                capacity as nat,
                |j: int| if j < initial@.len() { Some(initial@[j]) } else { None },
            ),
    {
        let ghost init = initial@;
        let mut commands: Vec<DeviceOp<T>> = Vec::new();
        commands.push(DeviceOp::Grow { capacity, copies: Vec::new() });
        commands.push(DeviceOp::Write { index: 0, values: initial });
        let ghost empty = Seq::<Option<T>>::empty();
        let ghost target = Seq::new(
            capacity as nat,
            |j: int| if j < init.len() { Some(init[j]) } else { None },
        );
        proof {
            let ops = commands@;
            lemma_apply_ops_push(empty, ops.drop_last(), ops.last());
            assert(ops.drop_last().drop_last() =~= Seq::<DeviceOp<T>>::empty());
            lemma_apply_ops_push(empty, ops.drop_last().drop_last(), ops.drop_last().last());
            assert(ops.drop_last() =~= seq![ops[0]]);
            assert(ops =~= ops.drop_last().push(ops.last()));
            let g = grown(empty, capacity as nat, Seq::<CopyRange>::empty());
            assert(apply_ops(empty, ops.drop_last()) == g);
            assert(apply_ops(empty, ops) =~= target);
        }
        Growable { capacity, commands, committed: Ghost(empty), contents: Ghost(target) }
    }

    pub fn capacity(&self) -> (r: usize)
        ensures
            r == self.spec_capacity(),
    {
        self.capacity
    }

    fn queue(&mut self, op: DeviceOp<T>)
        requires
            old(self).wf(),
            op_in_bounds(old(self).contents().len(), op),
            apply_op(old(self).contents(), op).len() <= usize::MAX,
        ensures
            final(self).contents() == apply_op(old(self).contents(), op),
            final(self).committed() == old(self).committed(),
            final(self).pending_ops() == old(self).pending_ops().push(op),
            final(self).capacity == apply_op(old(self).contents(), op).len(),
            final(self).wf(),
    {
        let ghost c = self.contents@;
        proof {
            lemma_apply_ops_push(self.committed@, self.commands@, op);
        }
        let cap = match &op {
            DeviceOp::Grow { capacity, copies: _ } => *capacity,
            _ => self.capacity,
        };
        self.commands.push(op);
        self.capacity = cap;
        self.contents = Ghost(apply_op(c, op));
    }

    /// Replaces the block with a new one of `capacity` records, filled by
    /// copying each of `copies` from the current block.
    pub fn regrow(&mut self, capacity: usize, copies: Vec<CopyRange>)
        requires
            old(self).wf(),
            forall|x: int| 0 <= x < copies@.len() ==> {
                &&& #[trigger] copies@[x].src + copies@[x].len <= old(self).spec_capacity()
                &&& copies@[x].dst + copies@[x].len <= capacity
            },
        ensures
            final(self).wf(),
            final(self).committed() == old(self).committed(),
            final(self).spec_capacity() == capacity,
            final(self).contents() == grown(old(self).contents(), capacity as nat, copies@),
            final(self).pending_ops().len() == old(self).pending_ops().len() + 1,
            final(self).pending_ops().drop_last() == old(self).pending_ops(),
            is_grow(final(self).pending_ops().last(), capacity as nat, copies@),
    {
        let ghost cs = copies@;
        let op = DeviceOp::Grow { capacity, copies };
        proof {
            assert(op_in_bounds(self.contents().len(), op));
        }
        self.queue(op);
        proof {
            assert(self.commands@.drop_last() =~= old(self).commands@);
        }
    }

    /// Hands out the queued commands, oldest first; the device is to run them
    /// in that order on the block that `committed()` describes.
    pub fn take_commands(&mut self) -> (r: Vec<DeviceOp<T>>)
        requires
            old(self).wf(),
        ensures
            final(self).wf(),
            r@ == old(self).pending_ops(),
            apply_ops(old(self).committed(), r@) == old(self).contents(),
            ops_in_bounds(old(self).committed(), r@),
            final(self).pending_ops() == Seq::<DeviceOp<T>>::empty(),
            final(self).committed() == old(self).contents(),
            final(self).contents() == old(self).contents(),
            final(self).spec_capacity() == old(self).spec_capacity(),
    {
        let mut r: Vec<DeviceOp<T>> = Vec::new();
        r.append(&mut self.commands);
        proof {
            assert(r@ =~= old(self).commands@);
        }
        self.committed = Ghost(self.contents@);
        r
    }

    /// Writes `value` at record `index`.
    pub fn write_at_index(&mut self, index: usize, value: T)
        requires
            old(self).wf(),
            index < old(self).spec_capacity(),
        ensures
            final(self).wf(),
            final(self).spec_capacity() == old(self).spec_capacity(),
            final(self).contents() == old(self).contents().update(index as int, Some(value)),
            final(self).committed() == old(self).committed(),
            final(self).pending_ops().len() == old(self).pending_ops().len() + 1,
            final(self).pending_ops().drop_last() == old(self).pending_ops(),
            is_record_write(final(self).pending_ops().last(), index as int, value),
    {
        let ghost c = self.contents@;
        let mut values: Vec<T> = Vec::new();
        values.push(value);
        proof {
            assert(values@ =~= seq![value]);
        }
        self.queue(DeviceOp::Write { index, values });
        proof {
            assert(self.contents@ =~= c.update(index as int, Some(value)));
            assert(self.commands@.drop_last() =~= old(self).commands@);
        }
    }

    /// Exchanges the records at `a` and `b`.
    pub fn swap_at_indices(&mut self, a: usize, b: usize)
        requires
            old(self).wf(),
            a < old(self).spec_capacity(),
            b < old(self).spec_capacity(),
        ensures
            final(self).wf(),
            final(self).spec_capacity() == old(self).spec_capacity(),
            final(self).contents() == swapped(old(self).contents(), a as int, b as int),
            final(self).committed() == old(self).committed(),
            final(self).pending_ops().len() == old(self).pending_ops().len() + 1,
            final(self).pending_ops().drop_last() == old(self).pending_ops(),
            is_swap(final(self).pending_ops().last(), a as int, b as int),
    {
        self.queue(DeviceOp::Swap { a, b });
        proof {
            assert(self.commands@.drop_last() =~= old(self).commands@);
        }
    }

    /// Grows the block so that `required_size` records fit, when they do not:
    /// to twice the capacity (a capacity of zero counts as one), or to
    /// `required_size` if that is more. The old records keep their offsets.
    /// Returns whether the block grew.
    pub fn maybe_grow(&mut self, required_size: usize) -> (grew: bool)
        requires
            old(self).wf(),
            required_size > old(self).spec_capacity() ==> grow_target(old(self).spec_capacity(), required_size as nat) <= usize::MAX,
        ensures
            final(self).wf(),
            final(self).committed() == old(self).committed(),
            grew == (required_size > old(self).spec_capacity()),
            !grew ==> *final(self) == *old(self),
            grew ==> final(self).spec_capacity() == grow_target(old(self).spec_capacity(), required_size as nat),
            grew ==> final(self).contents() == old(self).contents() + Seq::new(
                (final(self).spec_capacity() - old(self).spec_capacity()) as nat,
                |j: int| None::<T>,
            ),
    {
        if required_size <= self.capacity {
            return false;
        }
        let new_capacity = self.grow_capacity(required_size);
        let ghost c = self.contents@;
        let mut copies: Vec<CopyRange> = Vec::new();
        if self.capacity > 0 {
            copies.push(CopyRange { src: 0, dst: 0, len: self.capacity });
        }
        let ghost cs = copies@;
        self.queue(DeviceOp::Grow { capacity: new_capacity, copies });
        proof {
            let extra = Seq::new((new_capacity - c.len()) as nat, |j: int| None::<T>);
            assert forall|j: int| 0 <= j < new_capacity implies #[trigger] self.contents@[j] == (c + extra)[j] by {
                assert(self.contents@[j] == copied_into(c, cs, j));
                assert(copied_into(c, Seq::<CopyRange>::empty(), j) == None::<T>);
                if c.len() > 0 {
                    assert(cs.drop_last() =~= Seq::<CopyRange>::empty());
                }
            };
            assert(self.contents@ =~= c + extra);
        }
        true
    }

    fn grow_capacity(&self, required_size: usize) -> (r: usize)
        requires
            required_size > self.spec_capacity(),
            grow_target(self.spec_capacity(), required_size as nat) <= usize::MAX,
        ensures
            r == grow_target(self.spec_capacity(), required_size as nat),
            r > self.spec_capacity(),
    {
        let base: usize = if self.capacity == 0 { 1 } else { self.capacity };
        let doubled: usize = if base <= usize::MAX / 2 { base * 2 } else { usize::MAX };
        if doubled >= required_size { doubled } else { required_size }
    }

    /// Grows like [`Growable::maybe_grow`], but opens the new room at
    /// `insertion_point`: the records before it keep their offsets and those
    /// from it on move up by the capacity increase.
    pub fn maybe_grow_around(&mut self, required_size: usize, insertion_point: usize) -> (grew: bool)
        requires
            old(self).wf(),
            insertion_point <= old(self).spec_capacity(),
            required_size > old(self).spec_capacity() ==> grow_target(old(self).spec_capacity(), required_size as nat) <= usize::MAX,
        ensures
            final(self).wf(),
            final(self).committed() == old(self).committed(),
            grew == (required_size > old(self).spec_capacity()),
            !grew ==> *final(self) == *old(self),
            grew ==> final(self).spec_capacity() == grow_target(old(self).spec_capacity(), required_size as nat),
            grew ==> final(self).contents() == old(self).contents().subrange(0, insertion_point as int)
                + Seq::new(
                (final(self).spec_capacity() - old(self).spec_capacity()) as nat,
                |j: int| None::<T>,
            ) + old(self).contents().subrange(insertion_point as int, old(self).spec_capacity() as int),
    {
        if required_size <= self.capacity {
            return false;
        }
        let new_capacity = self.grow_capacity(required_size);
        let ghost c = self.contents@;
        let gap = new_capacity - self.capacity;
        let mut copies: Vec<CopyRange> = Vec::new();
        copies.push(CopyRange { src: 0, dst: 0, len: insertion_point });
        copies.push(CopyRange { src: insertion_point, dst: insertion_point + gap, len: self.capacity - insertion_point });
        let ghost cs = copies@;
        self.queue(DeviceOp::Grow { capacity: new_capacity, copies });
        proof {
            let extra = Seq::new(gap as nat, |j: int| None::<T>);
            let target = c.subrange(0, insertion_point as int) + extra + c.subrange(insertion_point as int, c.len() as int);
            assert(cs.drop_last() =~= seq![cs[0]]);
            assert(cs.drop_last().drop_last() =~= Seq::<CopyRange>::empty());
            assert forall|j: int| 0 <= j < new_capacity implies #[trigger] self.contents@[j] == target[j] by {
                assert(self.contents@[j] == copied_into(c, cs, j));
                assert(copied_into(c, Seq::<CopyRange>::empty(), j) == None::<T>);
                if j < insertion_point {
                    assert(copied_into(c, cs.drop_last(), j) == c[j]);
                } else if j < insertion_point + gap {
                    assert(copied_into(c, cs.drop_last(), j) == None::<T>);
                } else {
                    assert(target[j] == c[j - gap]);
                }
            };
            assert(self.contents@ =~= target);
        }
        true
    }
}

} // verus!
