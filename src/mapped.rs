use vstd::prelude::*;
use crate::device::DeviceOp;
use crate::growable::{grow_target, Growable};
use crate::sparse::SparseIdAllocator;

verus! {

/// What slot `i` holds once `changes` are written over `fallback`: the last
/// change to `i`, else `fallback`.
pub open spec fn latest<T>(changes: Seq<(u32, T)>, i: int, fallback: Option<T>) -> Option<T>
    decreases changes.len(),
{
    if changes.len() == 0 {
        fallback
    } else if changes.last().0 == i {
        Some(changes.last().1)
    } else {
        latest(changes.drop_last(), i, fallback)
    }
}

/// Records addressed by sparse ids over a growable block; writes are batched
/// and reach the block in [`MappedSparse::apply_changes`]. Freed slots hold
/// the tombstone: the record `T::default()` gave when the storage was made.
pub struct MappedSparse<T> {
    inner: Growable<T>,
    changes: Vec<(u32, T)>,
    ids: SparseIdAllocator,
    tombstone: T,
}

/// Whether no change of `changes` targets slot `i`.
pub open spec fn untouched<T>(changes: Seq<(u32, T)>, i: int) -> bool {
    forall|k: int| 0 <= k < changes.len() ==> #[trigger] changes[k].0 != i
}

proof fn lemma_latest_untouched<T>(changes: Seq<(u32, T)>, i: int, fallback: Option<T>)
    requires
        untouched(changes, i),
    ensures
        latest(changes, i, fallback) == fallback,
    decreases changes.len(),
{
    if changes.len() > 0 {
        assert(changes.last().0 != i);
        lemma_latest_untouched(changes.drop_last(), i, fallback);
    }
}

impl<T: Copy + Default> MappedSparse<T> {
    /// The block that holds the records.
    pub closed spec fn block(&self) -> Growable<T> {
        self.inner
    }

    pub closed spec fn allocator(&self) -> SparseIdAllocator {
        self.ids
    }

    /// What a freed slot is set to.
    pub closed spec fn tombstone(&self) -> T {
        self.tombstone
    }

    /// The writes not yet applied, oldest first.
    pub closed spec fn pending(&self) -> Seq<(u32, T)> {
        self.changes@
    }

    /// Slot `i` as the block will hold it after the next `apply_changes`.
    pub open spec fn records(&self) -> Seq<Option<T>> {
        Seq::new(
            self.allocator().spec_len(),
            |i: int|
                latest(
                    self.pending(),
                    i,
                    if i < self.block().contents().len() {
                        self.block().contents()[i]
                    } else {
                        None
                    },
                ),
        )
    }

    pub open spec fn wf(&self) -> bool {
        &&& self.block().wf()
        &&& self.allocator().wf()
        &&& forall|k: int| 0 <= k < self.pending().len() ==> #[trigger] self.pending()[k].0 < self.allocator().spec_len()
    }

    /// A storage whose slots `0..data.len()` hold `data`, in a block of exactly that capacity.
    pub fn new(data: Vec<T>) -> (r: Self)
        requires
            data@.len() <= u32::MAX,
        ensures
            r.wf(),
            r.allocator().free_list() == Seq::<u32>::empty(),
            r.allocator().spec_len() == data@.len(),
            r.block().spec_capacity() == data@.len(),
            r.block().contents() == data@.map_values(|v: T| Some(v)),
            r.records() == data@.map_values(|v: T| Some(v)),
            r.pending().len() == 0,
    {
        let ghost d = data@;
        let len = data.len();
        let inner = Growable::new_with_capacity(data, len);
        let r = MappedSparse {
            inner,
            changes: Vec::new(),
            ids: SparseIdAllocator::new_packed(len as u32),
            tombstone: T::default(),
        };
        proof {
            assert(r.records() =~= d.map_values(|v: T| Some(v)));
        }
        r
    }

    /// Takes a free slot for `data` and returns its id.
    pub fn push(&mut self, data: T) -> (idx: u32)
        requires
            old(self).wf(),
            old(self).allocator().free_list().len() > 0 || old(self).allocator().spec_len() < u32::MAX,
        ensures
            final(self).wf(),
            !old(self).allocator().is_live(idx),
            final(self).allocator().is_live(idx),
            forall|x: u32| x != idx ==> (#[trigger] final(self).allocator().is_live(x) <==> old(self).allocator().is_live(x)),
            old(self).allocator().free_list().len() > 0 ==> {
                &&& idx == old(self).allocator().free_list()[0]
                &&& final(self).allocator().free_list() == old(self).allocator().free_list().drop_first()
                &&& final(self).allocator().spec_len() == old(self).allocator().spec_len()
            },
            old(self).allocator().free_list().len() == 0 ==> {
                &&& idx == old(self).allocator().spec_len()
                &&& final(self).allocator().free_list() == old(self).allocator().free_list()
                &&& final(self).allocator().spec_len() == old(self).allocator().spec_len() + 1
            },
            final(self).pending() == old(self).pending().push((idx, data)),
            final(self).tombstone() == old(self).tombstone(),
            final(self).block() == old(self).block(),
            idx < old(self).allocator().spec_len() ==> final(self).records() == old(self).records().update(idx as int, Some(data)),
            idx == old(self).allocator().spec_len() ==> final(self).records() == old(self).records().push(Some(data)),
    {
        let idx = self.ids.allocate();
        self.changes.push((idx, data));
        proof {
            assert(self.changes@.drop_last() =~= old(self).changes@);
            if idx < old(self).allocator().spec_len() {
                assert(self.records() =~= old(self).records().update(idx as int, Some(data)));
            } else {
                assert(self.records() =~= old(self).records().push(Some(data)));
            }
        }
        idx
    }

    /// Replaces the record in slot `idx`.
    pub fn set(&mut self, idx: u32, data: T)
        requires
            old(self).wf(),
            idx < old(self).allocator().spec_len(),
        ensures
            final(self).wf(),
            final(self).allocator() == old(self).allocator(),
            final(self).block() == old(self).block(),
            final(self).records() == old(self).records().update(idx as int, Some(data)),
            final(self).pending() == old(self).pending().push((idx, data)),
            final(self).tombstone() == old(self).tombstone(),
    {
        self.changes.push((idx, data));
        proof {
            assert(self.changes@.drop_last() =~= old(self).changes@);
            assert(self.records() =~= old(self).records().update(idx as int, Some(data)));
        }
    }

    /// Frees slot `idx`, which then holds `T::default()` until it is reused.
    pub fn remove(&mut self, idx: u32)
        requires
            old(self).wf(),
            old(self).allocator().is_live(idx),
        ensures
            final(self).wf(),
            final(self).allocator().free_list() == old(self).allocator().free_list().push(idx),
            final(self).allocator().spec_len() == old(self).allocator().spec_len(),
            !final(self).allocator().is_live(idx),
            final(self).block() == old(self).block(),
            final(self).tombstone() == old(self).tombstone(),
            final(self).pending() == old(self).pending().push((idx, old(self).tombstone())),
            final(self).records() == old(self).records().update(idx as int, Some(old(self).tombstone())),
    {
        let t = self.tombstone;
        self.set(idx, t);
        self.ids.free(idx);
        proof {
            assert(self.records() =~= old(self).records().update(idx as int, Some(t)));
        }
    }

    /// Whether slot `idx` is live.
    pub fn is_live(&self, idx: u32) -> (r: bool)
        ensures
            r == self.allocator().is_live(idx),
    {
        self.ids.is_live_id(idx)
    }

    /// The number of slots ever used (live or freed), not the live count.
    pub fn len(&self) -> (r: u32)
        ensures
            r == self.allocator().spec_len(),
    {
        self.ids.len()
    }

    /// Grows the block to fit every slot, then writes the batched records.
    /// Returns whether the block grew.
    pub fn apply_changes(&mut self) -> (grew: bool)
        requires
            old(self).wf(),
            old(self).allocator().spec_len() > old(self).block().spec_capacity() ==> grow_target(
                old(self).block().spec_capacity(),
                old(self).allocator().spec_len(),
            ) <= usize::MAX,
        ensures
            final(self).wf(),
            final(self).allocator() == old(self).allocator(),
            final(self).pending().len() == 0,
            final(self).block().committed() == old(self).block().committed(),
            grew == (old(self).allocator().spec_len() > old(self).block().spec_capacity()),
            grew ==> final(self).block().spec_capacity() == grow_target(
                old(self).block().spec_capacity(),
                old(self).allocator().spec_len(),
            ),
            !grew ==> final(self).block().spec_capacity() == old(self).block().spec_capacity(),
            final(self).records() == old(self).records(),
            final(self).tombstone() == old(self).tombstone(),
            forall|i: int| 0 <= i < old(self).records().len() ==> #[trigger] final(self).block().contents()[i] == old(self).records()[i],
            forall|i: int| old(self).records().len() <= i < final(self).block().spec_capacity() ==>
                #[trigger] final(self).block().contents()[i] == (if i < old(self).block().contents().len() {
                    old(self).block().contents()[i]
                } else {
                    None
                }),
    {
        let ghost recs = self.records();
        let grew = self.inner.maybe_grow(self.ids.len() as usize);
        let ghost base = self.inner.contents();
        let ghost oldc = old(self).inner.contents();
        proof {
            assert forall|i: int| 0 <= i < base.len() implies #[trigger] base[i] == (if i < oldc.len() { oldc[i] } else { None }) by {
                if grew {
                    assert(base[i] == (oldc + Seq::new((base.len() - oldc.len()) as nat, |j: int| None::<T>))[i]);
                }
            };
        }
        let n = self.changes.len();
        let mut t: usize = 0;
        while t < n
            invariant
                self.inner.wf(),
                self.ids == old(self).ids,
                self.changes == old(self).changes,
                self.tombstone == old(self).tombstone,
                n == self.changes@.len(),
                t <= n,
                self.inner.contents().len() == base.len(),
                self.inner.committed() == old(self).inner.committed(),
                base.len() >= self.ids.spec_len(),
                forall|k: int| 0 <= k < self.changes@.len() ==> #[trigger] self.changes@[k].0 < self.ids.spec_len(),
                forall|i: int| 0 <= i < base.len() ==> #[trigger] self.inner.contents()[i] == latest(self.changes@.subrange(0, t as int), i, base[i]),
            decreases n - t,
        {
            let (idx, value) = self.changes[t];
            let ghost before = self.inner.contents();
            self.inner.write_at_index(idx as usize, value);
            proof {
                assert(self.changes@.subrange(0, t + 1).drop_last() =~= self.changes@.subrange(0, t as int));
                assert forall|i: int| 0 <= i < base.len() implies #[trigger] self.inner.contents()[i] == latest(self.changes@.subrange(0, t + 1), i, base[i]) by {
                    if i != idx {
                        assert(self.inner.contents()[i] == before[i]);
                    }
                };
            }
            t = t + 1;
        }
        self.changes.clear();
        proof {
            assert(old(self).changes@.subrange(0, n as int) =~= old(self).changes@);
            assert forall|i: int| 0 <= i < recs.len() implies #[trigger] self.inner.contents()[i] == recs[i] by {
                assert(base[i] == (if i < oldc.len() { oldc[i] } else { None }));
            };
            assert forall|i: int| recs.len() <= i < base.len() implies #[trigger] self.inner.contents()[i] == (if i < oldc.len() {
                oldc[i]
            } else {
                None
            }) by {
                assert(untouched(old(self).changes@, i));
                lemma_latest_untouched(old(self).changes@, i, base[i]);
            };
            assert(self.records() =~= recs);
        }
        grew
    }

    /// Hands out the device commands queued since the last call, oldest first.
    pub fn take_commands(&mut self) -> (r: Vec<DeviceOp<T>>)
        requires
            old(self).wf(),
        ensures
            final(self).wf(),
            r@ == old(self).block().pending_ops(),
            final(self).block().contents() == old(self).block().contents(),
            final(self).block().committed() == old(self).block().contents(),
            final(self).block().pending_ops().len() == 0,
            final(self).block().spec_capacity() == old(self).block().spec_capacity(),
            final(self).records() == old(self).records(),
            final(self).allocator() == old(self).allocator(),
            final(self).pending() == old(self).pending(),
            final(self).tombstone() == old(self).tombstone(),
    {
        let r = self.inner.take_commands();
        proof {
            assert(self.records() =~= old(self).records());
        }
        r
    }

    /// The capacity of the block, in records.
    pub fn capacity(&self) -> (r: usize)
        ensures
            r == self.block().spec_capacity(),
    {
        self.inner.capacity()
    }
}

} // verus!
