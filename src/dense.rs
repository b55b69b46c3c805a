use std::collections::HashMap;
use vstd::prelude::*;

verus! {

broadcast use vstd::std_specs::hash::group_hash_axioms;

/// The hasher of the handle-to-index map.
#[verifier::external_type_specification]
#[verifier::external_body]
pub struct ExRandomState(ahash::RandomState);

/// Relies on std's `HashMap::get` over ahash's `RandomState`, whose hashers
/// give equal keys equal hashes: the lookup finds the entry stored under `k`.
#[verifier::external_body]
fn map_get(m: &HashMap<u32, usize, ahash::RandomState>, k: u32) -> (r: Option<usize>)
    ensures
        r == (if m@.contains_key(k) { Some(m@[k]) } else { None::<usize> }),
{
    m.get(&k).copied()
}

/// Relies on std's `HashMap::insert` over ahash's `RandomState`: the entry
/// under `k` becomes `v` and the others stay.
#[verifier::external_body]
fn map_insert(m: &mut HashMap<u32, usize, ahash::RandomState>, k: u32, v: usize)
    ensures
        final(m)@ == old(m)@.insert(k, v),
{
    m.insert(k, v);
}

/// Relies on std's `HashMap::remove` over ahash's `RandomState`: the entry
/// under `k`, if any, goes and the others stay.
#[verifier::external_body]
fn map_remove(m: &mut HashMap<u32, usize, ahash::RandomState>, k: u32)
    ensures
        final(m)@ == old(m)@.remove(k),
{
    m.remove(&k);
}

/// A handle minted by a [`DenseIdAllocator`]: never handed out twice.
#[derive(Debug, Clone, Copy, Hash, PartialEq, Eq, Structural)]
pub struct DenseId(u32);

impl DenseId {
    pub closed spec fn id(&self) -> u32 {
        self.0
    }

    /// The handle whose raw value is `v`.
    pub closed spec fn spec_from_raw(v: u32) -> DenseId {
        DenseId(v)
    }

    pub fn from_raw(v: u32) -> (r: Self)
        ensures
            r == DenseId::spec_from_raw(v),
            r.id() == v,
    {
        DenseId(v)
    }

    pub fn raw(&self) -> (r: u32)
        ensures
            r == self.id(),
    {
        self.0
    }
}

/// A handle is its raw value: equal raw values make equal handles, and the
/// handle made from `v` has raw value `v`.
pub broadcast proof fn lemma_dense_id_raw(a: DenseId, b: DenseId)
    ensures
        #[trigger] a.id() == #[trigger] b.id() ==> a == b,
{
}

pub broadcast proof fn lemma_dense_id_of_raw(a: DenseId)
    ensures
        DenseId::spec_from_raw(#[trigger] a.id()) == a,
{
}

pub broadcast proof fn lemma_dense_id_from_raw(v: u32)
    ensures
        (#[trigger] DenseId::spec_from_raw(v)).id() == v,
{
}

pub broadcast group group_dense_id {
    lemma_dense_id_raw,
    lemma_dense_id_of_raw,
    lemma_dense_id_from_raw,
}

/// What a free asks of the dense array that the allocator indexes.
#[derive(Debug, Clone, Copy, PartialEq, Eq, Structural)]
pub enum DenseArrayOp {
    /// Move the record at `last` into `index`; the record at `last` is then dead.
    SwapRemove { index: u32, last: u32 },
    /// The freed record was the last one: nothing moves.
    RemoveLast,
}

/// Maps handles that are never reused to positions `0..len` with no gaps.
pub struct DenseIdAllocator {
    to_index: HashMap<u32, usize, ahash::RandomState>,
    from_index: Vec<DenseId>,
    next_dense: u32,
}

/// The handle list after the record at `index` is swap-removed.
pub open spec fn swap_remove_seq<A>(s: Seq<A>, index: int) -> Seq<A> {
    s.update(index, s.last()).drop_last()
}

impl DenseIdAllocator {
    /// The live handles, in dense order: the handle at position `i` has index `i`.
    pub closed spec fn handles(&self) -> Seq<DenseId> {
        self.from_index@
    }

    /// The handle that the next `allocate` mints.
    pub closed spec fn next_handle(&self) -> nat {
        self.next_dense as nat
    }

    pub closed spec fn index_map(&self) -> Map<u32, usize> {
        self.to_index@
    }

    pub open spec fn spec_len(&self) -> nat {
        self.handles().len()
    }

    /// Whether `h` is live.
    pub open spec fn contains(&self, h: DenseId) -> bool {
        exists|i: int| 0 <= i < self.handles().len() && self.handles()[i] == h
    }

    /// The dense index of a live handle.
    pub open spec fn index_of(&self, h: DenseId) -> int {
        choose|i: int| 0 <= i < self.handles().len() && self.handles()[i] == h
    }

    /// The dense indices in use.
    pub open spec fn valid_indices(&self) -> Set<int> {
        Set::new(|i: int| exists|h: DenseId| #[trigger] self.contains(h) && self.index_of(h) == i)
    }

    /// Live handles are distinct and below the next handle to mint.
    pub open spec fn wf(&self) -> bool {
        &&& self.handles().no_duplicates()
        &&& forall|i: int| 0 <= i < self.handles().len() ==> #[trigger] self.handles()[i].id() < self.next_handle()
        &&& self.spec_len() <= self.next_handle()
        &&& self.next_handle() <= u32::MAX
        &&& self.inner_wf()
    }

    pub closed spec fn inner_wf(&self) -> bool {
        &&& forall|i: int| 0 <= i < self.from_index@.len() ==> {
            &&& #[trigger] self.to_index@.contains_key(self.from_index@[i].0)
            &&& self.to_index@[self.from_index@[i].0] == i
        }
        &&& forall|k: u32| #[trigger] self.to_index@.contains_key(k) ==> {
            &&& self.to_index@[k] < self.from_index@.len()
            &&& self.from_index@[self.to_index@[k] as int].0 == k
        }
    }

    /// An allocator whose handles `0..len` sit at indices `0..len`.
    pub fn new_packed(len: u32) -> (r: Self)
        ensures
            r.wf(),
            r.next_handle() == len,
            r.spec_len() == len,
            forall|i: int| 0 <= i < len ==> #[trigger] r.handles()[i] == DenseId::spec_from_raw(i as u32),
            forall|i: int| 0 <= i < len ==> #[trigger] r.handles()[i].id() == i,
    {
        let mut to_index: HashMap<u32, usize, ahash::RandomState> = HashMap::default();
        let mut from_index: Vec<DenseId> = Vec::new();
        let mut i: u32 = 0;
        while i < len
            invariant
                i <= len,
                from_index@.len() == i,
                forall|j: int| 0 <= j < i ==> #[trigger] from_index@[j] == DenseId(j as u32),
                forall|k: u32| #[trigger] to_index@.contains_key(k) <==> k < i,
                forall|k: u32| k < i ==> #[trigger] to_index@[k] == k,
            decreases len - i,
        {
            map_insert(&mut to_index, i, i as usize);
            from_index.push(DenseId(i));
            i = i + 1;
        }
        let r = DenseIdAllocator { to_index, from_index, next_dense: len };
        proof {
            assert forall|a: int, b: int| 0 <= a < b < r.handles().len() implies r.handles()[a]
                != r.handles()[b] by {
                assert(r.handles()[a] == DenseId(a as u32));
                assert(r.handles()[b] == DenseId(b as u32));
            };
        }
        r
    }

    /// Mints a new handle and places it at index `len`.
    /// It should be followed by a push into the dense array.
    pub fn allocate(&mut self) -> (h: DenseId)
        requires
            old(self).wf(),
            old(self).next_handle() < u32::MAX,
        ensures
            final(self).wf(),
            h.id() == old(self).next_handle(),
            h == DenseId::spec_from_raw(old(self).next_handle() as u32),
            !old(self).contains(h),
            final(self).handles() == old(self).handles().push(h),
            final(self).next_handle() == old(self).next_handle() + 1,
    {
        let handle = DenseId(self.next_dense);
        self.next_dense = self.next_dense + 1;
        let len = self.from_index.len();
        map_insert(&mut self.to_index, handle.0, len);
        self.from_index.push(handle);
        proof {
            assert(self.from_index@.last() == handle);
            assert forall|i: int| 0 <= i < old(self).handles().len() implies #[trigger] old(self).handles()[i] != handle by {
                assert(old(self).handles()[i].id() < old(self).next_handle());
            };
            assert forall|a: int, b: int| 0 <= a < b < self.handles().len() implies self.handles()[a]
                != self.handles()[b] by {
                if b == len {
                    assert(old(self).handles()[a] != handle);
                } else {
                    assert(old(self).handles()[a] != old(self).handles()[b]);
                }
            };
            assert forall|i: int| 0 <= i < self.handles().len() implies #[trigger] self.handles()[i].id() < self.next_handle() by {
                if i < len {
                    assert(old(self).handles()[i].id() < old(self).next_handle());
                }
            };
            assert forall|k: u32| #[trigger] self.to_index@.contains_key(k) implies {
                &&& self.to_index@[k] < self.from_index@.len()
                &&& self.from_index@[self.to_index@[k] as int].0 == k
            } by {
                if k != handle.0 {
                    assert(old(self).to_index@.contains_key(k));
                }
            };
            assert forall|i: int| 0 <= i < self.from_index@.len() implies {
                &&& #[trigger] self.to_index@.contains_key(self.from_index@[i].0)
                &&& self.to_index@[self.from_index@[i].0] == i
            } by {
                if i < len {
                    assert(self.from_index@[i] == old(self).from_index@[i]);
                    assert(old(self).handles()[i].id() < old(self).next_handle());
                }
            };
        }
        handle
    }

    /// Frees a live handle, keeping indices gap-free by moving the last live
    /// handle into the freed index. `None` when `handle` is not live.
    pub fn free(&mut self, handle: DenseId) -> (r: Option<DenseArrayOp>)
        requires
            old(self).wf(),
        ensures
            final(self).wf(),
            final(self).next_handle() == old(self).next_handle(),
            !old(self).contains(handle) ==> r.is_none() && final(self).handles() == old(self).handles(),
            old(self).contains(handle) ==> {
                &&& r == Some(free_op(&*old(self), handle))
                &&& final(self).handles() == swap_remove_seq(old(self).handles(), old(self).index_of(handle))
            },
    {
        let index = match map_get(&self.to_index, handle.0) {
            Some(ix) => ix,
            None => {
                proof {
                    if old(self).contains(handle) {
                        let i = old(self).index_of(handle);
                        assert(self.to_index@.contains_key(self.from_index@[i].0));
                    }
                }
                return None;
            },
        };
        proof {
            assert(self.from_index@[index as int] == handle);
            assert(old(self).contains(handle));
            assert(old(self).index_of(handle) == index) by {
                let j = old(self).index_of(handle);
                assert(self.handles()[j] == handle);
                assert(self.handles().no_duplicates());
            };
        }
        let ghost old_handles = self.from_index@;
        let ghost last_handle = self.from_index@.last();
        self.from_index.swap_remove(index);
        map_remove(&mut self.to_index, handle.0);
        let len = self.from_index.len();
        if index != len {
            let moved = self.from_index[index];
            map_insert(&mut self.to_index, moved.0, index);
            proof {
                assert(self.from_index@ == swap_remove_seq(old_handles, index as int));
                self.lemma_after_swap(old(self).from_index@, old(self).to_index@, index, handle);
            }
            Some(DenseArrayOp::SwapRemove { index: index as u32, last: len as u32 })
        } else {
            proof {
                assert(self.from_index@ == swap_remove_seq(old_handles, index as int));
                self.lemma_after_swap(old(self).from_index@, old(self).to_index@, index, handle);
            }
            Some(DenseArrayOp::RemoveLast)
        }
    }

    proof fn lemma_after_swap(&self, old_from: Seq<DenseId>, old_to: Map<u32, usize>, index: usize, handle: DenseId)
        requires
            old_from.no_duplicates(),
            0 <= index < old_from.len(),
            old_from[index as int] == handle,
            self.from_index@ == swap_remove_seq(old_from, index as int),
            forall|i: int| 0 <= i < old_from.len() ==> {
                &&& #[trigger] old_to.contains_key(old_from[i].0)
                &&& old_to[old_from[i].0] == i
            },
            forall|k: u32| #[trigger] old_to.contains_key(k) ==> {
                &&& old_to[k] < old_from.len()
                &&& old_from[old_to[k] as int].0 == k
            },
            index < old_from.len() - 1 ==> self.to_index@ == old_to.remove(handle.0).insert(old_from.last().0, index),
            index == old_from.len() - 1 ==> self.to_index@ == old_to.remove(handle.0),
        ensures
            self.inner_wf(),
            self.from_index@.no_duplicates(),
    {
        let n = old_from.len();
        let s = self.from_index@;
        assert forall|a: int, b: int| 0 <= a < b < s.len() implies s[a] != s[b] by {
            let oa = if a == index { n - 1 } else { a };
            let ob = if b == index { n - 1 } else { b };
            assert(s[a] == old_from[oa]);
            assert(s[b] == old_from[ob]);
        };
        assert forall|i: int| 0 <= i < s.len() implies {
            &&& #[trigger] self.to_index@.contains_key(s[i].0)
            &&& self.to_index@[s[i].0] == i
        } by {
            if i == index {
                assert(s[i] == old_from[n - 1]);
                assert(self.to_index@ == old_to.remove(handle.0).insert(old_from.last().0, index));
            } else {
                assert(s[i] == old_from[i]);
                assert(old_from[i] != old_from[index as int]);
                assert(old_from[i].0 != handle.0);
                assert(old_to.contains_key(old_from[i].0));
                assert(old_to[old_from[i].0] == i);
                if index < n - 1 {
                    assert(old_from[i] != old_from[n - 1]);
                    assert(old_from[i].0 != old_from.last().0);
                }
            }
        };
        assert forall|k: u32| #[trigger] self.to_index@.contains_key(k) implies {
            &&& self.to_index@[k] < s.len()
            &&& s[self.to_index@[k] as int].0 == k
        } by {
            if index < n - 1 && k == old_from.last().0 {
                assert(self.to_index@[k] == index);
                assert(s[index as int] == old_from[n - 1]);
            } else {
                assert(old_to.contains_key(k));
                assert(k != handle.0);
                assert(self.to_index@[k] == old_to[k]);
                let j = old_to[k] as int;
                assert(old_from[j].0 == k);
                assert(j != index);
                if j == n - 1 {
                    assert(old_from[j] == old_from.last());
                    assert(false);
                }
                assert(s[j] == old_from[j]);
            }
        };
    }

    /// The number of live handles, which is the length of the dense array.
    pub fn len(&self) -> (r: usize)
        ensures
            r == self.spec_len(),
    {
        self.from_index.len()
    }

    /// The dense index of `id`, if it is live.
    pub fn get_index(&self, id: DenseId) -> (r: Option<u32>)
        requires
            self.wf(),
        ensures
            self.contains(id) <==> r.is_some(),
            self.contains(id) ==> r == Some(self.index_of(id) as u32),
    {
        match map_get(&self.to_index, id.0) {
            Some(i) => {
                proof {
                    assert(self.handles()[i as int] == id);
                    let j = self.index_of(id);
                    assert(self.handles().no_duplicates());
                }
                Some(i as u32)
            },
            None => {
                proof {
                    if self.contains(id) {
                        let i = self.index_of(id);
                        assert(self.to_index@.contains_key(self.from_index@[i].0));
                    }
                }
                None
            },
        }
    }

    /// The live handles in dense order.
    pub fn iter(&self) -> (r: &Vec<DenseId>)
        ensures
            r@ == self.handles(),
    {
        &self.from_index
    }
}

/// The operation that `free(h)` reports for the live handle `h`.
pub open spec fn free_op(a: &DenseIdAllocator, h: DenseId) -> DenseArrayOp {
    let i = a.index_of(h);
    let last = a.spec_len() - 1;
    if i == last {
        DenseArrayOp::RemoveLast
    } else {
        DenseArrayOp::SwapRemove { index: i as u32, last: last as u32 }
    }
}

/// A dense array after `op`: for a swap-remove, the records at `index` and
/// `last` are exchanged and the (now last) freed record is dropped.
pub open spec fn apply_dense_op<A>(arr: Seq<A>, op: DenseArrayOp) -> Seq<A> {
    match op {
        DenseArrayOp::SwapRemove { index, last } => arr.update(index as int, arr[last as int]).update(
            last as int,
            arr[index as int],
        ).drop_last(),
        DenseArrayOp::RemoveLast => arr.drop_last(),
    }
}

/// Freeing a live handle and replaying the reported operation on an array
/// that holds each handle's record at its index leaves an array that again
/// holds, at each index, the record of the handle now there: every other
/// record keeps its value and only its position may change.
pub proof fn lemma_free_keeps_records<A>(a: &DenseIdAllocator, h: DenseId, arr: Seq<A>)
    requires
        a.wf(),
        a.contains(h),
        arr.len() == a.spec_len(),
    ensures
        ({
            let hs = swap_remove_seq(a.handles(), a.index_of(h));
            let arr2 = apply_dense_op(arr, free_op(a, h));
            &&& arr2.len() == hs.len()
            &&& hs.no_duplicates()
            &&& forall|j: int| 0 <= j < hs.len() ==> {
                &&& #[trigger] hs[j] != h
                &&& a.contains(hs[j])
                &&& arr2[j] == arr[a.index_of(hs[j])]
            }
        }),
{
    let i = a.index_of(h);
    let n = a.spec_len() as int;
    let s = a.handles();
    let hs = swap_remove_seq(s, i);
    let arr2 = apply_dense_op(arr, free_op(a, h));
    assert(a.spec_len() <= u32::MAX);
    assert forall|x: int, y: int| 0 <= x < y < hs.len() implies hs[x] != hs[y] by {
        let ox = if x == i { n - 1 } else { x };
        let oy = if y == i { n - 1 } else { y };
        assert(hs[x] == s[ox]);
        assert(hs[y] == s[oy]);
    };
    assert forall|j: int| 0 <= j < hs.len() implies {
        &&& #[trigger] hs[j] != h
        &&& a.contains(hs[j])
        &&& arr2[j] == arr[a.index_of(hs[j])]
    } by {
        let oj = if j == i { n - 1 } else { j };
        assert(hs[j] == s[oj]);
        assert(a.contains(s[oj]));
        assert(a.index_of(s[oj]) == oj) by {
            let t = a.index_of(s[oj]);
            assert(s[t] == s[oj]);
        };
        assert(s[i] == h);
    };
}

/// After any sequence of allocations and frees, the dense indices in use are
/// exactly `0..len`: no index is shared and none is skipped.
pub proof fn lemma_dense_indices_contiguous(a: &DenseIdAllocator)
    requires
        a.wf(),
    ensures
        a.valid_indices() == Set::new(|i: int| 0 <= i < a.spec_len()),
        forall|h1: DenseId, h2: DenseId| a.contains(h1) && a.contains(h2) && h1 != h2 ==>
            #[trigger] a.index_of(h1) != #[trigger] a.index_of(h2),
{
    assert forall|i: int| #[trigger] a.valid_indices().contains(i) <==> 0 <= i < a.spec_len() by {
        if 0 <= i < a.spec_len() {
            let h = a.handles()[i];
            assert(a.contains(h));
            assert(a.index_of(h) == i);
        }
    };
    assert(a.valid_indices() =~= Set::new(|i: int| 0 <= i < a.spec_len()));
}

} // verus!
