use std::collections::VecDeque;
use vstd::prelude::*;

verus! {

/// Hands out small integer ids, reusing the ones that were given back.
///
/// Ids below `len` that are not in the free list are live. Freed ids are
/// handed out again first, in the order in which they were freed.
pub struct SparseIdAllocator {
    free_ids: VecDeque<u32>,
    len: u32,
}

impl SparseIdAllocator {
    /// The ids waiting to be handed out again, oldest first.
    pub closed spec fn free_list(&self) -> Seq<u32> {
        self.free_ids@
    }

    /// The number of ids ever minted: every id handed out is below it.
    pub closed spec fn spec_len(&self) -> nat {
        self.len as nat
    }

    /// An id is live when it was handed out and not given back since.
    pub open spec fn is_live(&self, id: u32) -> bool {
        id < self.spec_len() && !self.free_list().contains(id)
    }

    /// Free-list ids are distinct and were all minted before.
    pub open spec fn wf(&self) -> bool {
        &&& self.free_list().no_duplicates()
        &&& forall|i: int| 0 <= i < self.free_list().len() ==> #[trigger] self.free_list()[i] < self.spec_len()
    }

    /// An allocator whose ids `0..len` are all live.
    pub fn new_packed(len: u32) -> (r: Self)
        ensures
            r.wf(),
            r.spec_len() == len,
            r.free_list() == Seq::<u32>::empty(),
    {
        SparseIdAllocator { free_ids: VecDeque::new(), len }
    }

    /// Reuses the oldest freed id, else mints the next one.
    pub fn allocate(&mut self) -> (id: u32)
        requires
            old(self).wf(),
            old(self).free_list().len() > 0 || old(self).spec_len() < u32::MAX,
        ensures
            final(self).wf(),
            !old(self).is_live(id),
            final(self).is_live(id),
            forall|x: u32| x != id ==> (#[trigger] final(self).is_live(x) <==> old(self).is_live(x)),
            old(self).free_list().len() > 0 ==> {
                &&& id == old(self).free_list()[0]
                &&& final(self).free_list() == old(self).free_list().drop_first()
                &&& final(self).spec_len() == old(self).spec_len()
            },
            old(self).free_list().len() == 0 ==> {
                &&& id == old(self).spec_len()
                &&& final(self).free_list() == old(self).free_list()
                &&& final(self).spec_len() == old(self).spec_len() + 1
            },
    {
        match self.free_ids.pop_front() {
            Some(id) => {
                proof {
                    assert(old(self).free_list()[0] == id);
                    assert forall|x: u32| #[trigger] self.free_list().contains(x) implies x != id
                        && old(self).free_list().contains(x) by {
                        let j = choose|j: int| 0 <= j < self.free_list().len() && self.free_list()[j] == x;
                        assert(old(self).free_list()[j + 1] == x);
                    };
                    assert forall|x: u32| x != id && #[trigger] old(self).free_list().contains(x)
                        implies self.free_list().contains(x) by {
                        let j = choose|j: int| 0 <= j < old(self).free_list().len() && old(self).free_list()[j] == x;
                        assert(j != 0);
                        assert(self.free_list()[j - 1] == x);
                    };
                    assert(old(self).free_list().contains(id));
                }
                id
            },
            None => {
                let id = self.len;
                self.len = self.len + 1;
                id
            },
        }
    }

    /// Gives an id back; it is handed out again by a later `allocate`.
    pub fn free(&mut self, id: u32)
        requires
            old(self).wf(),
            old(self).is_live(id),
        ensures
            final(self).wf(),
            final(self).free_list() == old(self).free_list().push(id),
            final(self).spec_len() == old(self).spec_len(),
            !final(self).is_live(id),
            forall|x: u32| x != id ==> (#[trigger] final(self).is_live(x) <==> old(self).is_live(x)),
    {
        self.free_ids.push_back(id);
        proof {
            assert(self.free_list().last() == id);
            assert forall|x: u32| x != id implies (#[trigger] self.free_list().contains(x)
                <==> old(self).free_list().contains(x)) by {
                if self.free_list().contains(x) {
                    let j = choose|j: int| 0 <= j < self.free_list().len() && self.free_list()[j] == x;
                    assert(old(self).free_list()[j] == x);
                }
                if old(self).free_list().contains(x) {
                    let j = choose|j: int| 0 <= j < old(self).free_list().len() && old(self).free_list()[j] == x;
                    assert(self.free_list()[j] == x);
                }
            };
        }
    }

    /// Whether `id` is live: minted and not waiting in the free list.
    pub fn is_live_id(&self, id: u32) -> (r: bool)
        ensures
            r == self.is_live(id),
    {
        if id >= self.len {
            return false;
        }
        let n = self.free_ids.len();
        let mut i: usize = 0;
        while i < n
            invariant
                n == self.free_list().len(),
                i <= n,
                forall|j: int| 0 <= j < i ==> #[trigger] self.free_list()[j] != id,
            decreases n - i,
        {
            if self.free_ids[i] == id {
                return false;
            }
            i = i + 1;
        }
        true
    }

    /// The number of ids ever minted (live, or dead and waiting for reuse).
    pub fn len(&self) -> (r: u32)
        ensures
            r == self.spec_len(),
    {
        self.len
    }
}

} // verus!
