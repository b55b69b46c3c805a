use vstd::prelude::*;
use crate::dense::{swap_remove_seq, DenseArrayOp, DenseId, DenseIdAllocator};
use crate::device::{
    is_grow, copied_into, lemma_copied_into_push_after, lemma_copied_into_push_cover, CopyRange,
    DeviceOp,
};
use crate::growable::{grow_target, Growable};

verus! {

/// The address of a record in a [`DenseMapped2d`]: its column and its handle there.
#[derive(Debug, Clone, Copy, PartialEq, Eq, Structural)]
pub struct Slot2dId {
    pub row_id: u16,
    pub dense: DenseId,
}

/// What `apply_changes` reports of one column.
#[derive(Debug, Clone, Copy, PartialEq, Eq, Structural)]
pub enum ColumnChange {
    /// The column now starts at record `new_offset` of the block.
    Moved { new_offset: usize },
    /// The column now holds `new_size` live records.
    Resized { new_size: usize },
}

/// One column: a region `[index_offset, index_offset + capacity)` of the block.
///
/// `pending[i]` is the record at dense index `i` when the block does not hold
/// it yet; `None` when the block already holds it at `index_offset + i`.
struct ColumnMeta<T> {
    capacity: usize,
    index_offset: usize,
    pending: Vec<Option<T>>,
    reported_len: usize,
    ids: DenseIdAllocator,
    values: Ghost<Seq<T>>,
}

/// The sum of the first `k` entries of `s`.
pub open spec fn prefix_sum(s: Seq<usize>, k: int) -> int
    decreases k,
{
    if k <= 0 {
        0
    } else {
        prefix_sum(s, k - 1) + s[k - 1]
    }
}

/// The capacity a column of capacity `cap` needs for `len` live records.
pub open spec fn needed_cap(cap: nat, len: nat) -> nat {
    if len > cap {
        grow_target(cap, len)
    } else {
        cap
    }
}

/// Whether some column before `k` grows from `caps` to `new_caps`.
pub open spec fn grows_before(caps: Seq<usize>, new_caps: Seq<usize>, k: int) -> bool
    decreases k,
{
    if k <= 0 {
        false
    } else {
        grows_before(caps, new_caps, k - 1) || new_caps[k - 1] > caps[k - 1]
    }
}

/// The `Moved` entries for the first `k` columns: every column after the first
/// one that grows, with its new offset.
pub open spec fn moved_report(caps: Seq<usize>, new_caps: Seq<usize>, k: int) -> Seq<(u16, ColumnChange)>
    decreases k,
{
    if k <= 0 {
        Seq::empty()
    } else if grows_before(caps, new_caps, k - 1) {
        moved_report(caps, new_caps, k - 1).push(
            ((k - 1) as u16, ColumnChange::Moved { new_offset: prefix_sum(new_caps, k - 1) as usize }),
        )
    } else {
        moved_report(caps, new_caps, k - 1)
    }
}

/// The `Resized` entries for the first `k` columns: every column whose live
/// count differs from the last one reported.
pub open spec fn resized_report(lens: Seq<usize>, reported: Seq<usize>, k: int) -> Seq<(u16, ColumnChange)>
    decreases k,
{
    if k <= 0 {
        Seq::empty()
    } else if lens[k - 1] != reported[k - 1] {
        resized_report(lens, reported, k - 1).push(
            ((k - 1) as u16, ColumnChange::Resized { new_size: lens[k - 1] }),
        )
    } else {
        resized_report(lens, reported, k - 1)
    }
}

impl<T> ColumnMeta<T> {
    /// The column's invariant against the block contents `contents`.
    spec fn ok(&self, contents: Seq<Option<T>>) -> bool {
        &&& self.ids.wf()
        &&& self.pending@.len() == self.ids.spec_len()
        &&& self.values@.len() == self.ids.spec_len()
        &&& forall|i: int| 0 <= i < self.ids.spec_len() ==> match #[trigger] self.pending@[i] {
            Some(v) => v == self.values@[i],
            None => i < self.capacity && self.index_offset + i < contents.len()
                && contents[self.index_offset + i] == Some(self.values@[i]),
        }
    }
}

/// If two blocks agree on a column's region, the column's invariant holds on both.
proof fn lemma_ok_same_region<T>(c: ColumnMeta<T>, a: Seq<Option<T>>, b: Seq<Option<T>>)
    requires
        c.ok(a),
        c.index_offset + c.capacity <= b.len(),
        forall|j: int| c.index_offset <= j < c.index_offset + c.capacity ==> #[trigger] b[j] == a[j],
    ensures
        c.ok(b),
{
    assert forall|i: int| 0 <= i < c.ids.spec_len() implies match #[trigger] c.pending@[i] {
        Some(v) => v == c.values@[i],
        None => i < c.capacity && c.index_offset + i < b.len()
            && b[c.index_offset + i] == Some(c.values@[i]),
    } by {
        if c.pending@[i].is_none() {
            assert(b[c.index_offset + i] == a[c.index_offset + i]);
        }
    };
}

pub proof fn lemma_prefix_sum_mono(s: Seq<usize>, a: int, b: int)
    requires
        0 <= a <= b <= s.len(),
    ensures
        prefix_sum(s, a) <= prefix_sum(s, b),
        a < b ==> prefix_sum(s, a) + s[a] <= prefix_sum(s, b),
    decreases b - a,
{
    if a < b {
        lemma_prefix_sum_mono(s, a, b - 1);
    }
}

pub proof fn lemma_prefix_sum_agree(s: Seq<usize>, t: Seq<usize>, m: int)
    requires
        0 <= m <= s.len(),
        m <= t.len(),
        forall|i: int| 0 <= i < m ==> #[trigger] s[i] == t[i],
    ensures
        prefix_sum(s, m) == prefix_sum(t, m),
    decreases m,
{
    if m > 0 {
        lemma_prefix_sum_agree(s, t, m - 1);
    }
}

proof fn lemma_prefix_sum_agree_range(s: Seq<usize>, t: Seq<usize>, a: int, m: int)
    requires
        0 <= a <= m <= s.len(),
        m <= t.len(),
        forall|i: int| a <= i < m ==> #[trigger] s[i] == t[i],
    ensures
        prefix_sum(s, m) - prefix_sum(s, a) == prefix_sum(t, m) - prefix_sum(t, a),
    decreases m - a,
{
    if m > a {
        lemma_prefix_sum_agree_range(s, t, a, m - 1);
    }
}

pub proof fn lemma_prefix_sum_grow(s: Seq<usize>, t: Seq<usize>, a: int, b: int)
    requires
        0 <= a <= b <= s.len(),
        s.len() == t.len(),
        forall|i: int| 0 <= i < s.len() ==> #[trigger] s[i] <= t[i],
    ensures
        prefix_sum(t, b) - prefix_sum(t, a) >= prefix_sum(s, b) - prefix_sum(s, a),
    decreases b - a,
{
    if b > a {
        lemma_prefix_sum_grow(s, t, a, b - 1);
    }
}

proof fn lemma_prefix_sum_strict(s: Seq<usize>, t: Seq<usize>, g: int)
    requires
        0 <= g < s.len(),
        s.len() == t.len(),
        forall|i: int| 0 <= i < s.len() ==> #[trigger] s[i] <= t[i],
        s[g] < t[g],
    ensures
        prefix_sum(t, s.len() as int) > prefix_sum(s, s.len() as int),
{
    lemma_prefix_sum_grow(s, t, 0, g);
    lemma_prefix_sum_grow(s, t, g + 1, s.len() as int);
}

proof fn lemma_prefix_sum_equal(s: Seq<usize>, t: Seq<usize>)
    requires
        s.len() == t.len(),
        forall|i: int| 0 <= i < s.len() ==> #[trigger] s[i] <= t[i],
        prefix_sum(t, s.len() as int) == prefix_sum(s, s.len() as int),
    ensures
        s == t,
{
    assert forall|i: int| 0 <= i < s.len() implies #[trigger] s[i] == t[i] by {
        if s[i] < t[i] {
            lemma_prefix_sum_strict(s, t, i);
        }
    };
    assert(s =~= t);
}

proof fn lemma_no_growth_no_moves(s: Seq<usize>, t: Seq<usize>, k: int)
    requires
        0 <= k <= s.len(),
        s.len() == t.len(),
        forall|i: int| 0 <= i < s.len() ==> #[trigger] t[i] <= s[i],
    ensures
        !grows_before(s, t, k),
        moved_report(s, t, k) == Seq::<(u16, ColumnChange)>::empty(),
    decreases k,
{
    if k > 0 {
        lemma_no_growth_no_moves(s, t, k - 1);
    }
}

/// The first column of the copy run that is open after the first `k`
/// columns: the column after the last one before `k` that grows.
pub open spec fn run_start(caps: Seq<usize>, new_caps: Seq<usize>, k: int) -> int
    decreases k,
{
    if k <= 0 {
        0
    } else if new_caps[k - 1] > caps[k - 1] {
        k
    } else {
        run_start(caps, new_caps, k - 1)
    }
}

/// The copy that moves columns `a..b` as one range: from their old start to
/// their new start, their old capacities long.
pub open spec fn run_copy(caps: Seq<usize>, new_caps: Seq<usize>, a: int, b: int) -> CopyRange {
    CopyRange {
        src: prefix_sum(caps, a) as usize,
        dst: prefix_sum(new_caps, a) as usize,
        len: (prefix_sum(caps, b) - prefix_sum(caps, a)) as usize,
    }
}

/// The copies closed within the first `k` columns: one for each column that
/// grows, covering it and the columns since the previous one that grows.
pub open spec fn repack_copies(caps: Seq<usize>, new_caps: Seq<usize>, k: int) -> Seq<CopyRange>
    decreases k,
{
    if k <= 0 {
        Seq::empty()
    } else if new_caps[k - 1] > caps[k - 1] {
        repack_copies(caps, new_caps, k - 1).push(run_copy(caps, new_caps, run_start(caps, new_caps, k - 1), k))
    } else {
        repack_copies(caps, new_caps, k - 1)
    }
}

/// All copies of a repack of `n` columns: one per growing column, then one
/// for the columns after the last one that grows.
pub open spec fn repack_plan(caps: Seq<usize>, new_caps: Seq<usize>, n: int) -> Seq<CopyRange> {
    repack_copies(caps, new_caps, n).push(run_copy(caps, new_caps, run_start(caps, new_caps, n), n))
}

/// Column sizes given as `u16`, counted in records.
pub open spec fn sizes_of(sizes: Seq<u16>) -> Seq<usize> {
    sizes.map_values(|c: u16| c as usize)
}

/// Several columns of records packed one after another in one growable block;
/// each column is kept gap-free by a [`DenseIdAllocator`].
pub struct DenseMapped2d<T> {
    inner: Growable<T>,
    columns: Vec<ColumnMeta<T>>,
    ttl_capacity: usize,
}

impl<T: Copy> DenseMapped2d<T> {
    pub closed spec fn block(&self) -> Growable<T> {
        self.inner
    }

    pub closed spec fn num_columns(&self) -> nat {
        self.columns@.len()
    }

    /// The capacity of each column's region.
    pub closed spec fn caps(&self) -> Seq<usize> {
        self.columns@.map_values(|c: ColumnMeta<T>| c.capacity)
    }

    /// Where each column's region starts in the block.
    pub closed spec fn offsets(&self) -> Seq<usize> {
        self.columns@.map_values(|c: ColumnMeta<T>| c.index_offset)
    }

    /// The live count of each column.
    pub closed spec fn lens(&self) -> Seq<usize> {
        self.columns@.map_values(|c: ColumnMeta<T>| c.ids.spec_len() as usize)
    }

    /// The live count of each column as last reported by `apply_changes`.
    pub closed spec fn reported(&self) -> Seq<usize> {
        self.columns@.map_values(|c: ColumnMeta<T>| c.reported_len)
    }

    /// Column `k`'s allocator.
    pub closed spec fn allocator(&self, k: int) -> DenseIdAllocator {
        self.columns@[k].ids
    }

    /// Column `k`'s records, in dense order: the record of `allocator(k).handles()[i]` is `values(k)[i]`.
    pub closed spec fn values(&self, k: int) -> Seq<T> {
        self.columns@[k].values@
    }

    /// The capacity each column needs for its live records.
    pub open spec fn needed_caps(&self) -> Seq<usize> {
        Seq::new(self.num_columns(), |k: int| needed_cap(self.caps()[k] as nat, self.lens()[k] as nat) as usize)
    }

    /// Whether every column fits its region and its size was reported.
    pub open spec fn is_settled(&self) -> bool {
        forall|k: int| 0 <= k < self.num_columns() ==> #[trigger] self.lens()[k] <= self.caps()[k]
            && self.lens()[k] == self.reported()[k]
    }

    pub closed spec fn wf(&self) -> bool {
        &&& self.inner.wf()
        &&& self.columns@.len() <= 0x1_0000
        &&& self.ttl_capacity == self.inner.spec_capacity()
        &&& self.ttl_capacity == prefix_sum(self.caps(), self.columns@.len() as int)
        &&& forall|k: int| 0 <= k < self.columns@.len() ==> #[trigger] self.columns@[k].ok(self.inner.contents())
        &&& forall|k: int| 0 <= k < self.columns@.len() ==> #[trigger] self.columns@[k].index_offset == prefix_sum(self.caps(), k)
    }

    proof fn lemma_regions(&self, k1: int, k2: int)
        requires
            self.wf(),
            0 <= k1 < k2 < self.columns@.len(),
        ensures
            self.columns@[k1].index_offset + self.columns@[k1].capacity <= self.columns@[k2].index_offset,
    {
        assert(self.caps()[k1] == self.columns@[k1].capacity);
        lemma_prefix_sum_mono(self.caps(), k1, k2);
    }

    proof fn lemma_region_in_block(&self, k: int)
        requires
            self.wf(),
            0 <= k < self.columns@.len(),
        ensures
            self.columns@[k].index_offset + self.columns@[k].capacity <= self.inner.spec_capacity(),
    {
        assert(self.caps()[k] == self.columns@[k].capacity);
        lemma_prefix_sum_mono(self.caps(), k, self.columns@.len() as int);
    }

    /// A storage with empty columns whose regions have the capacities
    /// `columns_capacity`, in order.
    pub fn with_capacities(columns_capacity: Vec<u16>) -> (r: Self)
        requires
            columns_capacity@.len() <= 0x1_0000,
            prefix_sum(sizes_of(columns_capacity@), columns_capacity@.len() as int) <= usize::MAX,
        ensures
            r.wf(),
            r.is_settled(),
            r.num_columns() == columns_capacity@.len(),
            r.caps() == sizes_of(columns_capacity@),
            forall|k: int| 0 <= k < r.num_columns() ==> #[trigger] r.offsets()[k] == prefix_sum(sizes_of(columns_capacity@), k),
            forall|k: int| 0 <= k < r.num_columns() ==> {
                &&& (#[trigger] r.allocator(k)).spec_len() == 0
                &&& r.allocator(k).next_handle() == 0
            },
            forall|k: int| 0 <= k < r.num_columns() ==> #[trigger] r.lens()[k] == 0 && r.reported()[k] == 0,
            r.block().spec_capacity() == prefix_sum(sizes_of(columns_capacity@), columns_capacity@.len() as int),
    {
        let ghost sizes = sizes_of(columns_capacity@);
        let n = columns_capacity.len();
        let mut columns: Vec<ColumnMeta<T>> = Vec::new();
        let mut offset: usize = 0;
        let mut k: usize = 0;
        while k < n
            invariant
                n == columns_capacity@.len(),
                n <= 0x1_0000,
                k <= n,
                sizes == sizes_of(columns_capacity@),
                prefix_sum(sizes, n as int) <= usize::MAX,
                offset == prefix_sum(sizes, k as int),
                columns@.len() == k,
                forall|m: int| 0 <= m < k ==> {
                    &&& (#[trigger] columns@[m]).capacity == sizes[m]
                    &&& columns@[m].index_offset == prefix_sum(sizes, m)
                    &&& columns@[m].reported_len == 0
                    &&& columns@[m].ids.wf()
                    &&& columns@[m].ids.spec_len() == 0
                    &&& columns@[m].ids.next_handle() == 0
                    &&& columns@[m].pending@.len() == 0
                    &&& columns@[m].values@.len() == 0
                },
            decreases n - k,
        {
            let c = columns_capacity[k] as usize;
            proof {
                lemma_prefix_sum_mono(sizes, k as int, n as int);
                assert(sizes[k as int] == c);
            }
            let col = ColumnMeta {
                capacity: c,
                index_offset: offset,
                pending: Vec::new(),
                reported_len: 0,
                ids: DenseIdAllocator::new_packed(0),
                values: Ghost(Seq::empty()),
            };
            columns.push(col);
            offset = offset + c;
            k = k + 1;
        }
        let inner = Growable::new_with_capacity(Vec::new(), offset);
        let r = DenseMapped2d { inner, columns, ttl_capacity: offset };
        proof {
            assert(r.caps() =~= sizes);
            assert forall|m: int| 0 <= m < n implies #[trigger] r.columns@[m].ok(r.inner.contents()) by {};
        }
        r
    }

    /// Columns are packed with no gaps: each starts where the previous one
    /// ends, and together they fill the block.
    pub proof fn lemma_layout(&self)
        requires
            self.wf(),
        ensures
            self.caps().len() == self.num_columns(),
            self.offsets().len() == self.num_columns(),
            self.lens().len() == self.num_columns(),
            self.reported().len() == self.num_columns(),
            self.num_columns() <= 0x1_0000,
            self.block().spec_capacity() == prefix_sum(self.caps(), self.num_columns() as int),
            forall|k: int| 0 <= k < self.num_columns() ==> #[trigger] self.offsets()[k] == prefix_sum(self.caps(), k),
            forall|k: int| 0 <= k < self.num_columns() ==> #[trigger] self.lens()[k] == self.allocator(k).spec_len(),
            forall|k: int| 0 <= k < self.num_columns() ==> #[trigger] self.values(k).len() == self.allocator(k).spec_len(),
    {
        assert forall|k: int| 0 <= k < self.num_columns() implies #[trigger] self.values(k).len() == self.allocator(k).spec_len() by {
            assert(self.columns@[k].ok(self.inner.contents()));
        };
        assert forall|k: int| 0 <= k < self.num_columns() implies #[trigger] self.lens()[k] == self.allocator(k).spec_len() by {
            assert(self.columns@[k].ok(self.inner.contents()));
            assert(self.columns@[k].ids.spec_len() <= u32::MAX);
        };
        assert forall|k: int| 0 <= k < self.num_columns() implies #[trigger] self.offsets()[k] == prefix_sum(self.caps(), k) by {
            assert(self.columns@[k].index_offset == prefix_sum(self.caps(), k));
        };
    }

    /// The capacity of the whole block, in records.
    pub fn capacity(&self) -> (r: usize)
        requires
            self.wf(),
        ensures
            r == self.block().spec_capacity(),
    {
        self.ttl_capacity
    }

    /// The number of columns.
    pub fn columns_len(&self) -> (r: usize)
        ensures
            r == self.num_columns(),
    {
        self.columns.len()
    }

    /// The live count of column `k`.
    pub fn column_len(&self, k: u16) -> (r: usize)
        requires
            k < self.num_columns(),
        ensures
            r == self.lens()[k as int],
    {
        self.columns[k as usize].ids.len()
    }

    /// The capacity of column `k`'s region.
    pub fn column_capacity(&self, k: u16) -> (r: usize)
        requires
            k < self.num_columns(),
        ensures
            r == self.caps()[k as int],
    {
        self.columns[k as usize].capacity
    }

    /// Where column `k`'s region starts in the block.
    pub fn column_offset(&self, k: u16) -> (r: usize)
        requires
            k < self.num_columns(),
        ensures
            r == self.offsets()[k as int],
    {
        self.columns[k as usize].index_offset
    }

    /// The dense index of `id` in its column, if it is live.
    pub fn get_index(&self, id: Slot2dId) -> (r: Option<u32>)
        requires
            self.wf(),
            id.row_id < self.num_columns(),
        ensures
            self.allocator(id.row_id as int).contains(id.dense) <==> r.is_some(),
            self.allocator(id.row_id as int).contains(id.dense) ==> r == Some(
                self.allocator(id.row_id as int).index_of(id.dense) as u32,
            ),
    {
        proof {
            assert(self.columns@[id.row_id as int].ok(self.inner.contents()));
        }
        self.columns[id.row_id as usize].ids.get_index(id.dense)
    }

    /// Hands out the device commands queued since the last call, oldest first.
    pub fn take_commands(&mut self) -> (r: Vec<DeviceOp<T>>)
        requires
            old(self).wf(),
        ensures
            final(self).wf(),
            r@ == old(self).block().pending_ops(),
            final(self).block().contents() == old(self).block().contents(),
            final(self).block().committed() == old(self).block().contents(),
            final(self).block().pending_ops().len() == 0,
            final(self).block().spec_capacity() == old(self).block().spec_capacity(),
            final(self).num_columns() == old(self).num_columns(),
            final(self).caps() == old(self).caps(),
            final(self).offsets() == old(self).offsets(),
            final(self).lens() == old(self).lens(),
            final(self).reported() == old(self).reported(),
            forall|k: int| 0 <= k < old(self).num_columns() ==> {
                &&& #[trigger] final(self).allocator(k) == old(self).allocator(k)
                &&& final(self).values(k) == old(self).values(k)
            },
    {
        let r = self.inner.take_commands();
        proof {
            assert forall|k: int| 0 <= k < self.columns@.len() implies #[trigger] self.columns@[k].ok(self.inner.contents()) by {
                assert(old(self).columns@[k].ok(old(self).inner.contents()));
            };
        }
        r
    }

    /// A storage whose block holds `data`, split into columns of the sizes
    /// `columns_size` in order; every record of `data` is live.
    pub fn new(data: Vec<T>, columns_size: Vec<u16>) -> (r: Self)
        requires
            columns_size@.len() <= 0x1_0000,
            prefix_sum(sizes_of(columns_size@), columns_size@.len() as int) == data@.len(),
        ensures
            r.wf(),
            r.num_columns() == columns_size@.len(),
            r.caps() == sizes_of(columns_size@),
            r.reported() == sizes_of(columns_size@),
            r.is_settled(),
            forall|k: int| 0 <= k < r.num_columns() ==> #[trigger] r.offsets()[k] == prefix_sum(sizes_of(columns_size@), k),
            forall|k: int| 0 <= k < r.num_columns() ==> {
                &&& (#[trigger] r.allocator(k)).spec_len() == columns_size@[k]
                &&& r.allocator(k).next_handle() == columns_size@[k]
                &&& forall|i: int| 0 <= i < columns_size@[k] ==> #[trigger] r.allocator(k).handles()[i] == DenseId::spec_from_raw(i as u32)
                &&& r.values(k) == data@.subrange(r.offsets()[k] as int, r.offsets()[k] + columns_size@[k])
            },
            r.block().committed() == Seq::<Option<T>>::empty(),
            r.block().contents() == data@.map_values(|v: T| Some(v)),
    {
        let ghost d = data@;
        let ghost sizes = sizes_of(columns_size@);
        let ghost target = Seq::new(d.len(), |j: int| if j < d.len() { Some(d[j]) } else { None });
        let n = columns_size.len();
        let len = data.len();
        let mut columns: Vec<ColumnMeta<T>> = Vec::new();
        let mut offset: usize = 0;
        let mut k: usize = 0;
        while k < n
            invariant
                n == columns_size@.len(),
                n <= 0x1_0000,
                k <= n,
                sizes == sizes_of(columns_size@),
                prefix_sum(sizes, n as int) == d.len(),
                d == data@,
                len == d.len(),
                target == Seq::new(d.len(), |j: int| if j < d.len() { Some(d[j]) } else { None }),
                offset == prefix_sum(sizes, k as int),
                columns@.len() == k,
                forall|m: int| 0 <= m < k ==> {
                    &&& (#[trigger] columns@[m]).capacity == sizes[m]
                    &&& columns@[m].index_offset == prefix_sum(sizes, m)
                    &&& columns@[m].reported_len == sizes[m]
                    &&& columns@[m].ok(target)
                    &&& columns@[m].ids.spec_len() == sizes[m]
                    &&& columns@[m].ids.next_handle() == sizes[m]
                    &&& forall|i: int| 0 <= i < sizes[m] ==> #[trigger] columns@[m].ids.handles()[i] == DenseId::spec_from_raw(i as u32)
                    &&& columns@[m].values@ == d.subrange(prefix_sum(sizes, m), prefix_sum(sizes, m) + sizes[m])
                },
            decreases n - k,
        {
            let c = columns_size[k] as usize;
            proof {
                lemma_prefix_sum_mono(sizes, k as int, n as int);
                assert(sizes[k as int] == c);
                assert(offset + c <= d.len());
            }
            let mut pending: Vec<Option<T>> = Vec::new();
            let mut i: usize = 0;
            while i < c
                invariant
                    i <= c,
                    pending@.len() == i,
                    forall|j: int| 0 <= j < i ==> #[trigger] pending@[j] == None::<T>,
                decreases c - i,
            {
                pending.push(None);
                i = i + 1;
            }
            let col = ColumnMeta {
                capacity: c,
                index_offset: offset,
                pending,
                reported_len: c,
                ids: DenseIdAllocator::new_packed(c as u32),
                values: Ghost(d.subrange(offset as int, offset + c)),
            };
            proof {
                assert forall|j: int| 0 <= j < c implies match #[trigger] col.pending@[j] {
                    Some(v) => v == col.values@[j],
                    None => j < col.capacity && col.index_offset + j < target.len()
                        && target[col.index_offset + j] == Some(col.values@[j]),
                } by {
                    assert(col.pending@[j] == None::<T>);
                    assert(col.values@[j] == d[offset + j]);
                    assert(target[offset + j] == Some(d[offset + j]));
                };
            }
            columns.push(col);
            offset = offset + c;
            k = k + 1;
        }
        let inner = Growable::new_with_capacity(data, len);
        let r = DenseMapped2d { inner, columns, ttl_capacity: len };
        proof {
            assert(r.caps() =~= sizes);
            assert(r.reported() =~= sizes);
            assert(inner.contents() =~= target);
            assert(target =~= d.map_values(|v: T| Some(v)));
        }
        r
    }

    /// Adds `value` at the end of column `column_id` and returns its address.
    /// The block is written by the next `apply_changes`.
    pub fn push(&mut self, column_id: u16, value: T) -> (r: Slot2dId)
        requires
            old(self).wf(),
            column_id < old(self).num_columns(),
            old(self).allocator(column_id as int).next_handle() < u32::MAX,
        ensures
            final(self).wf(),
            r.row_id == column_id,
            !old(self).allocator(column_id as int).contains(r.dense),
            final(self).allocator(column_id as int).handles() == old(self).allocator(column_id as int).handles().push(r.dense),
            final(self).allocator(column_id as int).next_handle() == old(self).allocator(column_id as int).next_handle() + 1,
            final(self).values(column_id as int) == old(self).values(column_id as int).push(value),
            final(self).num_columns() == old(self).num_columns(),
            final(self).block() == old(self).block(),
            final(self).caps() == old(self).caps(),
            final(self).offsets() == old(self).offsets(),
            final(self).reported() == old(self).reported(),
            final(self).lens() == old(self).lens().update(column_id as int, (old(self).lens()[column_id as int] + 1) as usize),
            forall|k: int| 0 <= k < old(self).num_columns() && k != column_id ==> {
                &&& #[trigger] final(self).allocator(k) == old(self).allocator(k)
                &&& final(self).values(k) == old(self).values(k)
            },
    {
        let k = column_id as usize;
        let ghost contents = self.inner.contents();
        proof {
            assert(self.columns@[k as int].ok(contents));
            assert(self.allocator(k as int) == self.columns@[k as int].ids);
        }
        let col = &mut self.columns[k];
        let id = col.ids.allocate();
        col.pending.push(Some(value));
        col.values = Ghost(col.values@.push(value));
        proof {
            let c = self.columns@[k as int];
            assert forall|i: int| 0 <= i < c.ids.spec_len() implies match #[trigger] c.pending@[i] {
                Some(v) => v == c.values@[i],
                None => i < c.capacity && c.index_offset + i < contents.len()
                    && contents[c.index_offset + i] == Some(c.values@[i]),
            } by {
                if i < old(self).columns@[k as int].ids.spec_len() {
                    assert(c.pending@[i] == old(self).columns@[k as int].pending@[i]);
                }
            };
            assert(self.caps() =~= old(self).caps());
            assert(self.offsets() =~= old(self).offsets());
            assert(self.reported() =~= old(self).reported());
            assert(self.lens() =~= old(self).lens().update(k as int, (old(self).lens()[k as int] + 1) as usize));
        }
        Slot2dId { row_id: column_id, dense: id }
    }

    /// Removes the record at `id` if it is live; an unknown handle is
    /// ignored. When it was not the last of its column, the column's last
    /// record takes its place: if the block already holds that record, the
    /// exchange of the two block positions is queued at once, else the
    /// waiting record is simply written at its new index later.
    pub fn remove(&mut self, id: Slot2dId)
        requires
            old(self).wf(),
            id.row_id < old(self).num_columns(),
        ensures
            final(self).wf(),
            final(self).num_columns() == old(self).num_columns(),
            final(self).caps() == old(self).caps(),
            final(self).offsets() == old(self).offsets(),
            final(self).reported() == old(self).reported(),
            final(self).block().spec_capacity() == old(self).block().spec_capacity(),
            final(self).block().committed() == old(self).block().committed(),
            forall|k: int| 0 <= k < old(self).num_columns() && k != id.row_id ==> {
                &&& #[trigger] final(self).allocator(k) == old(self).allocator(k)
                &&& final(self).values(k) == old(self).values(k)
            },
            ({
                let k = id.row_id as int;
                let a = old(self).allocator(k);
                &&& final(self).allocator(k).next_handle() == a.next_handle()
                &&& !a.contains(id.dense) ==> final(self).allocator(k).handles() == a.handles()
                    && final(self).values(k) == old(self).values(k)
                &&& a.contains(id.dense) ==> final(self).allocator(k).handles() == swap_remove_seq(a.handles(), a.index_of(id.dense))
                    && final(self).values(k) == swap_remove_seq(old(self).values(k), a.index_of(id.dense))
                &&& !a.contains(id.dense) ==> final(self).lens() == old(self).lens()
                &&& !a.contains(id.dense) ==> final(self).block() == old(self).block()
                &&& a.contains(id.dense) ==> final(self).lens() == old(self).lens().update(k, (old(self).lens()[k] - 1) as usize)
            }),
    {
        let k = id.row_id as usize;
        let ghost contents = self.inner.contents();
        proof {
            self.lemma_region_in_block(k as int);
            assert(self.columns@[k as int].ok(contents));
        }
        let ghost oldcol = self.columns@[k as int];
        let col = &mut self.columns[k];
        let offset = col.index_offset;
        proof {
            assert(offset + col.capacity <= usize::MAX);
        }
        let ghost vals = col.values@;
        let ghost pend = col.pending@;
        let mut device_swap: Option<(usize, usize)> = None;
        match col.ids.free(id.dense) {
            None => {},
            Some(DenseArrayOp::RemoveLast) => {
                col.pending.pop();
                col.values = Ghost(col.values@.drop_last());
            },
            Some(DenseArrayOp::SwapRemove { index, last }) => {
                let moved = col.pending[last as usize];
                proof {
                    let oc = old(self).columns@[k as int];
                    assert(oc.pending@[last as int] == moved);
                    let oa = oc.ids;
                    assert(oa.contains(id.dense));
                    let ix = oa.index_of(id.dense);
                    assert(0 <= ix < oa.spec_len());
                    assert(oa.spec_len() <= u32::MAX);
                    assert(index as int == ix);
                    assert(index < last);
                }
                col.pending.set(index as usize, moved);
                col.pending.pop();
                col.values = Ghost(swap_remove_seq(col.values@, index as int));
                if moved.is_none() {
                    device_swap = Some((offset + index as usize, offset + last as usize));
                }
            },
        }
        proof {
            assert(self.caps() =~= old(self).caps());
            assert(self.offsets() =~= old(self).offsets());
            assert(self.reported() =~= old(self).reported());
        }
        match device_swap {
            Some((a, b)) => {
                self.inner.swap_at_indices(a, b);
            },
            None => {},
        }
        proof {
            if oldcol.ids.contains(id.dense) {
                assert(self.lens() =~= old(self).lens().update(k as int, (old(self).lens()[k as int] - 1) as usize));
            } else {
                assert(self.lens() =~= old(self).lens());
            }
            let newc = self.inner.contents();
            let c = self.columns@[k as int];
            let oc = old(self).columns@[k as int];
            let n = oc.ids.spec_len() as int;
            assert forall|m: int| 0 <= m < self.columns@.len() && m != k implies #[trigger] self.columns@[m].ok(newc) by {
                if m < k {
                    old(self).lemma_regions(m, k as int);
                } else {
                    old(self).lemma_regions(k as int, m);
                }
                old(self).lemma_region_in_block(m);
                lemma_ok_same_region(self.columns@[m], contents, newc);
            };
            assert forall|i: int| 0 <= i < c.ids.spec_len() implies match #[trigger] c.pending@[i] {
                Some(v) => v == c.values@[i],
                None => i < c.capacity && c.index_offset + i < newc.len()
                    && newc[c.index_offset + i] == Some(c.values@[i]),
            } by {
                if oc.ids.contains(id.dense) {
                    let ix = oc.ids.index_of(id.dense);
                    let last = n - 1;
                    assert(0 <= ix < n);
                    assert(n <= u32::MAX);
                    if i == ix && ix != last {
                        assert(c.pending@[i] == pend[last]);
                        assert(c.values@[i] == vals[last]);
                        assert(oc.pending@[last] == pend[last]);
                    } else {
                        assert(c.pending@[i] == pend[i]);
                        assert(c.values@[i] == vals[i]);
                        assert(oc.pending@[i] == pend[i]);
                    }
                } else {
                    assert(c.pending@[i] == pend[i]);
                }
            };
        }
    }

    /// The capacity each column needs, and their sum.
    fn needed_capacities(&self) -> (r: (Vec<usize>, usize))
        requires
            self.wf(),
            forall|k: int| 0 <= k < self.num_columns() ==> needed_cap(#[trigger] self.caps()[k] as nat, self.lens()[k] as nat) <= usize::MAX,
            prefix_sum(self.needed_caps(), self.num_columns() as int) <= usize::MAX,
        ensures
            r.0@ == self.needed_caps(),
            r.1 == prefix_sum(self.needed_caps(), self.num_columns() as int),
    {
        let n = self.columns.len();
        let ghost need = self.needed_caps();
        let mut r: Vec<usize> = Vec::new();
        let mut total: usize = 0;
        let mut k: usize = 0;
        while k < n
            invariant
                n == self.columns@.len(),
                need == self.needed_caps(),
                k <= n,
                r@ == need.subrange(0, k as int),
                total == prefix_sum(need, k as int),
                prefix_sum(need, n as int) <= usize::MAX,
                forall|m: int| 0 <= m < n ==> needed_cap(#[trigger] self.caps()[m] as nat, self.lens()[m] as nat) <= usize::MAX,
            decreases n - k,
        {
            let cap = self.columns[k].capacity;
            let len = self.columns[k].ids.len();
            proof {
                assert(self.caps()[k as int] == cap);
                assert(self.lens()[k as int] == len);
                lemma_prefix_sum_mono(need, k as int + 1, n as int);
            }
            let c: usize = if len > cap {
                let base: usize = if cap == 0 { 1 } else { cap };
                let doubled: usize = if base <= usize::MAX / 2 { base * 2 } else { usize::MAX };
                if doubled >= len { doubled } else { len }
            } else {
                cap
            };
            r.push(c);
            total = total + c;
            k = k + 1;
            proof {
                assert(r@ =~= need.subrange(0, k as int));
            }
        }
        proof {
            assert(r@ =~= need);
        }
        (r, total)
    }

    /// Moves the columns into a block of `total` records where column `k`
    /// has `new_caps[k]` records. Runs of columns that do not grow are
    /// copied with one command each. Returns a `Moved` entry for each column
    /// after the first one that grows.
    fn relocate(&mut self, new_caps: &Vec<usize>, total: usize) -> (moved: Vec<(u16, ColumnChange)>)
        requires
            old(self).wf(),
            new_caps@.len() == old(self).num_columns(),
            forall|k: int| 0 <= k < new_caps@.len() ==> #[trigger] new_caps@[k] >= old(self).caps()[k],
            total == prefix_sum(new_caps@, new_caps@.len() as int),
        ensures
            final(self).inner.wf(),
            final(self).inner.committed() == old(self).inner.committed(),
            final(self).inner.spec_capacity() == total,
            final(self).ttl_capacity == total,
            final(self).columns@.len() == old(self).columns@.len(),
            forall|k: int| 0 <= k < old(self).columns@.len() ==> {
                let c = #[trigger] final(self).columns@[k];
                let o = old(self).columns@[k];
                &&& c.capacity == new_caps@[k]
                &&& c.index_offset == prefix_sum(new_caps@, k)
                &&& c.pending == o.pending
                &&& c.reported_len == o.reported_len
                &&& c.ids == o.ids
                &&& c.values == o.values
            },
            forall|k: int, i: int| 0 <= k < old(self).columns@.len() && 0 <= i < old(self).caps()[k] ==>
                #[trigger] final(self).inner.contents()[prefix_sum(new_caps@, k) + i]
                    == old(self).inner.contents()[#[trigger] prefix_sum(old(self).caps(), k) + i],
            moved@ == moved_report(old(self).caps(), new_caps@, new_caps@.len() as int),
            final(self).inner.pending_ops().len() == old(self).inner.pending_ops().len() + 1,
            final(self).inner.pending_ops().drop_last() == old(self).inner.pending_ops(),
            is_grow(final(self).inner.pending_ops().last(), total as nat, repack_plan(old(self).caps(), new_caps@, new_caps@.len() as int)),
    {
        let n = self.columns.len();
        let ghost oc = self.caps();
        let ghost nc = new_caps@;
        let ghost oldc = self.inner.contents();
        let ttl = self.ttl_capacity;
        proof {
            lemma_prefix_sum_grow(oc, nc, 0, n as int);
        }
        let mut copies: Vec<CopyRange> = Vec::new();
        let mut moved: Vec<(u16, ColumnChange)> = Vec::new();
        let mut rest_old: usize = 0;
        let mut rest_new: usize = 0;
        let mut old_block: usize = 0;
        let mut new_block: usize = 0;
        let mut prev_offset: usize = 0;
        let mut move_needed = false;
        let ghost mut a: int = 0;
        let mut k: usize = 0;
        while k < n
            invariant
                n == self.columns@.len(),
                n == nc.len(),
                n == oc.len(),
                nc == new_caps@,
                oc == old(self).caps(),
                oldc == old(self).inner.contents(),
                oldc.len() == ttl,
                ttl == prefix_sum(oc, n as int),
                total == prefix_sum(nc, n as int),
                self.inner == old(self).inner,
                self.ttl_capacity == ttl,
                forall|m: int| 0 <= m < n ==> #[trigger] nc[m] >= oc[m],
                0 <= a <= k <= n,
                rest_old == prefix_sum(oc, a),
                rest_new == prefix_sum(nc, a),
                old_block == prefix_sum(oc, k as int) - prefix_sum(oc, a),
                new_block == prefix_sum(nc, k as int) - prefix_sum(nc, a),
                forall|m: int| a <= m < k ==> #[trigger] nc[m] == oc[m],
                prev_offset == prefix_sum(nc, k as int),
                move_needed == grows_before(oc, nc, k as int),
                moved@ == moved_report(oc, nc, k as int),
                a == run_start(oc, nc, k as int),
                copies@ == repack_copies(oc, nc, k as int),
                forall|m: int| 0 <= m < n ==> {
                    let c = #[trigger] self.columns@[m];
                    let o = old(self).columns@[m];
                    &&& c.pending == o.pending
                    &&& c.reported_len == o.reported_len
                    &&& c.ids == o.ids
                    &&& c.values == o.values
                    &&& m < k ==> c.capacity == nc[m] && c.index_offset == prefix_sum(nc, m)
                    &&& m >= k ==> c.capacity == o.capacity
                },
                forall|x: int| 0 <= x < copies@.len() ==> {
                    &&& (#[trigger] copies@[x]).src + copies@[x].len <= rest_old
                    &&& copies@[x].dst + copies@[x].len <= rest_new
                },
                forall|m: int, i: int| 0 <= m < a && 0 <= i < oc[m] ==>
                    #[trigger] copied_into(oldc, copies@, prefix_sum(nc, m) + i) == oldc[#[trigger] prefix_sum(oc, m) + i],
            decreases n - k,
        {
            proof {
                lemma_prefix_sum_mono(oc, k as int + 1, n as int);
                lemma_prefix_sum_mono(nc, k as int + 1, n as int);
                lemma_prefix_sum_mono(oc, a, k as int);
                lemma_prefix_sum_mono(nc, a, k as int);
                assert(oc[k as int] == self.columns@[k as int].capacity);
                assert(prefix_sum(oc, k + 1) == prefix_sum(oc, k as int) + oc[k as int]);
                assert(prefix_sum(nc, k + 1) == prefix_sum(nc, k as int) + nc[k as int]);
            }
            let old_cap = self.columns[k].capacity;
            let new_cap = new_caps[k];
            let grow = new_cap > old_cap;
            old_block = old_block + old_cap;
            new_block = new_block + new_cap;
            if grow {
                let c = CopyRange { src: rest_old, dst: rest_new, len: old_block };
                proof {
                    let cs = copies@;
                    lemma_prefix_sum_grow(oc, nc, a, k as int + 1);
                    assert forall|m: int, i: int| 0 <= m < k + 1 && 0 <= i < oc[m] implies
                        #[trigger] copied_into(oldc, cs.push(c), prefix_sum(nc, m) + i) == oldc[#[trigger] prefix_sum(oc, m) + i] by {
                        let j = prefix_sum(nc, m) + i;
                        lemma_prefix_sum_mono(oc, m, k as int + 1);
                        if m < a {
                            lemma_prefix_sum_mono(nc, m, a);
                            lemma_copied_into_push_after(oldc, cs, c, j);
                        } else {
                            lemma_prefix_sum_mono(nc, a, m);
                            lemma_prefix_sum_agree_range(oc, nc, a, m);
                            assert(prefix_sum(oc, m) + oc[m] <= prefix_sum(oc, k + 1));
                            assert(c.dst <= j < c.dst + c.len);
                            lemma_copied_into_push_cover(oldc, cs, c, j);
                        }
                    };
                }
                proof {
                    assert(c == run_copy(oc, nc, a, k + 1));
                }
                copies.push(c);
                rest_old = rest_old + old_block;
                rest_new = rest_new + new_block;
                old_block = 0;
                new_block = 0;
                proof {
                    a = k + 1;
                }
            }
            if move_needed {
                moved.push((k as u16, ColumnChange::Moved { new_offset: prev_offset }));
            } else if grow {
                move_needed = true;
            }
            let col = &mut self.columns[k];
            col.index_offset = prev_offset;
            col.capacity = new_cap;
            prev_offset = prev_offset + new_cap;
            k = k + 1;
        }
        let last = CopyRange { src: rest_old, dst: rest_new, len: ttl - rest_old };
        proof {
            let cs = copies@;
            lemma_prefix_sum_mono(oc, a, n as int);
            lemma_prefix_sum_grow(oc, nc, a, n as int);
            assert forall|m: int, i: int| 0 <= m < n && 0 <= i < oc[m] implies
                #[trigger] copied_into(oldc, cs.push(last), prefix_sum(nc, m) + i) == oldc[#[trigger] prefix_sum(oc, m) + i] by {
                let j = prefix_sum(nc, m) + i;
                lemma_prefix_sum_mono(oc, m, n as int);
                if m < a {
                    lemma_prefix_sum_mono(nc, m, a);
                    lemma_copied_into_push_after(oldc, cs, last, j);
                } else {
                    lemma_prefix_sum_mono(nc, a, m);
                    lemma_prefix_sum_agree_range(oc, nc, a, m);
                    assert(prefix_sum(oc, m) + oc[m] <= prefix_sum(oc, n as int));
                    assert(last.dst <= j < last.dst + last.len);
                    lemma_copied_into_push_cover(oldc, cs, last, j);
                }
            };
        }
        proof {
            assert(last == run_copy(oc, nc, a, n as int));
        }
        copies.push(last);
        let ghost cs = copies@;
        proof {
            assert forall|x: int| 0 <= x < cs.len() implies {
                &&& (#[trigger] cs[x]).src + cs[x].len <= oldc.len()
                &&& cs[x].dst + cs[x].len <= total
            } by {};
        }
        self.inner.regrow(total, copies);
        self.ttl_capacity = total;
        proof {
            let newc = self.inner.contents();
            assert(newc == crate::device::grown(oldc, total as nat, cs));
            assert(newc.len() == total);
            assert(total == prefix_sum(nc, n as int));
            assert forall|m: int, i: int| 0 <= m < n && 0 <= i < oc[m] implies
                #[trigger] newc[prefix_sum(nc, m) + i] == oldc[#[trigger] prefix_sum(oc, m) + i] by {
                lemma_prefix_sum_mono(nc, m, n as int);
                lemma_prefix_sum_mono(nc, 0, m);
                assert(nc[m] >= oc[m]);
                assert(newc[prefix_sum(nc, m) + i] == copied_into(oldc, cs, prefix_sum(nc, m) + i));
            };
        }
        moved
    }

    /// Whether column `k` has no record waiting to be written.
    pub closed spec fn is_flushed(&self, k: int) -> bool {
        forall|i: int| 0 <= i < self.columns@[k].pending@.len() ==> #[trigger] self.columns@[k].pending@[i] == None::<T>
    }

    /// Whether the block, once its queued commands run, holds every live record
    /// of every column at the column's offset plus its dense index.
    pub open spec fn holds_all_records(&self) -> bool {
        forall|k: int, i: int| 0 <= k < self.num_columns() && 0 <= i < self.lens()[k] ==>
            #[trigger] self.block().contents()[self.offsets()[k] + i] == Some(#[trigger] self.values(k)[i])
    }

    /// Writes column `k`'s waiting records into the block and reports its new
    /// size if it differs from the last one reported.
    fn flush_column(&mut self, k: usize) -> (r: Option<ColumnChange>)
        requires
            old(self).wf(),
            k < old(self).num_columns(),
            old(self).lens()[k as int] <= old(self).caps()[k as int],
        ensures
            final(self).wf(),
            final(self).is_flushed(k as int),
            final(self).columns@.len() == old(self).columns@.len(),
            final(self).inner.committed() == old(self).inner.committed(),
            final(self).inner.spec_capacity() == old(self).inner.spec_capacity(),
            forall|m: int| 0 <= m < old(self).columns@.len() ==> {
                let c = #[trigger] final(self).columns@[m];
                let o = old(self).columns@[m];
                &&& c.capacity == o.capacity
                &&& c.index_offset == o.index_offset
                &&& c.ids == o.ids
                &&& c.values == o.values
                &&& m != k ==> c.pending == o.pending && c.reported_len == o.reported_len
                &&& m == k ==> c.reported_len == c.ids.spec_len()
            },
            r == (if old(self).lens()[k as int] != old(self).reported()[k as int] {
                Some(ColumnChange::Resized { new_size: old(self).lens()[k as int] })
            } else {
                None
            }),
            final(self).inner.pending_ops().len() >= old(self).inner.pending_ops().len(),
            final(self).inner.pending_ops().subrange(0, old(self).inner.pending_ops().len() as int) == old(self).inner.pending_ops(),
            forall|j: int| old(self).inner.pending_ops().len() <= j < final(self).inner.pending_ops().len() ==>
                #[trigger] final(self).inner.pending_ops()[j] is Write,
            old(self).is_flushed(k as int) ==> final(self).inner == old(self).inner,
    {
        proof {
            assert(self.columns@[k as int].ok(self.inner.contents()));
            self.lemma_region_in_block(k as int);
            assert(self.lens()[k as int] == self.columns@[k as int].ids.spec_len());
            assert(self.caps()[k as int] == self.columns@[k as int].capacity);
        }
        let len = self.columns[k].ids.len();
        let offset = self.columns[k].index_offset;
        let mut i: usize = 0;
        while i < len
            invariant
                self.wf(),
                k < self.columns@.len(),
                self.columns@.len() == old(self).columns@.len(),
                len == self.columns@[k as int].ids.spec_len(),
                len <= self.columns@[k as int].capacity,
                offset == self.columns@[k as int].index_offset,
                offset + self.columns@[k as int].capacity <= self.inner.spec_capacity(),
                i <= len,
                self.inner.committed() == old(self).inner.committed(),
                self.inner.spec_capacity() == old(self).inner.spec_capacity(),
                forall|j: int| 0 <= j < i ==> #[trigger] self.columns@[k as int].pending@[j] == None::<T>,
                forall|j: int| i <= j < len ==> #[trigger] self.columns@[k as int].pending@[j] == old(self).columns@[k as int].pending@[j],
                old(self).columns@[k as int].pending@.len() == len,
                self.inner.pending_ops().len() >= old(self).inner.pending_ops().len(),
                self.inner.pending_ops().subrange(0, old(self).inner.pending_ops().len() as int) == old(self).inner.pending_ops(),
                forall|j: int| old(self).inner.pending_ops().len() <= j < self.inner.pending_ops().len() ==>
                    #[trigger] self.inner.pending_ops()[j] is Write,
                old(self).is_flushed(k as int) ==> self.inner == old(self).inner,
                forall|m: int| 0 <= m < old(self).columns@.len() ==> {
                    let c = #[trigger] self.columns@[m];
                    let o = old(self).columns@[m];
                    &&& c.capacity == o.capacity
                    &&& c.index_offset == o.index_offset
                    &&& c.ids == o.ids
                    &&& c.values == o.values
                    &&& c.reported_len == o.reported_len
                    &&& m != k ==> c.pending == o.pending
                },
            decreases len - i,
        {
            let ghost snap = *self;
            proof {
                assert(self.columns@[k as int].ok(self.inner.contents()));
            }
            let p = self.columns[k].pending[i];
            match p {
                Some(v) => {
                    let ghost before = self.inner.contents();
                    let ghost ops_before = self.inner.pending_ops();
                    proof {
                        assert(old(self).columns@[k as int].pending@[i as int] == Some(v));
                        assert(!old(self).is_flushed(k as int));
                    }
                    self.inner.write_at_index(offset + i, v);
                    proof {
                        let o = old(self).inner.pending_ops();
                        let f = self.inner.pending_ops();
                        assert(f.subrange(0, o.len() as int) =~= ops_before.subrange(0, o.len() as int));
                        assert forall|j: int| o.len() <= j < f.len() implies #[trigger] f[j] is Write by {
                            if j < ops_before.len() {
                                assert(f[j] == ops_before[j]);
                            } else {
                                assert(f[j] == f.last());
                            }
                        };
                    }
                    let col = &mut self.columns[k];
                    col.pending.set(i, None);
                    proof {
                        let newc = self.inner.contents();
                        assert(self.caps() =~= old(self).caps());
                        assert forall|m: int| 0 <= m < self.columns@.len() && m != k implies #[trigger] self.columns@[m].ok(newc) by {
                            if m < k {
                                snap.lemma_regions(m, k as int);
                            } else {
                                snap.lemma_regions(k as int, m);
                            }
                            snap.lemma_region_in_block(m);
                            assert(snap.columns@[m].ok(before));
                            lemma_ok_same_region(self.columns@[m], before, newc);
                        };
                        let c = self.columns@[k as int];
                        assert forall|j: int| 0 <= j < c.ids.spec_len() implies match #[trigger] c.pending@[j] {
                            Some(w) => w == c.values@[j],
                            None => j < c.capacity && c.index_offset + j < newc.len()
                                && newc[c.index_offset + j] == Some(c.values@[j]),
                        } by {
                            let sc = snap.columns@[k as int];
                            assert(sc.ok(before));
                            if j != i {
                                assert(c.pending@[j] == sc.pending@[j]);
                                if c.pending@[j].is_none() {
                                    assert(newc[c.index_offset + j] == before[c.index_offset + j]);
                                }
                            } else {
                                assert(sc.pending@[j] == Some(v));
                            }
                        };
                        assert(self.columns@ =~= snap.columns@.update(k as int, c));
                        assert(self.caps() =~= snap.caps());
                        assert forall|m: int| 0 <= m < self.columns@.len() implies #[trigger] self.columns@[m].index_offset == prefix_sum(self.caps(), m) by {
                            assert(snap.columns@[m].index_offset == prefix_sum(snap.caps(), m));
                        };
                    }
                },
                None => {},
            }
            i = i + 1;
        }
        proof {
            assert(self.caps() =~= old(self).caps());
            assert(self.columns@[k as int].ok(self.inner.contents()));
        }
        let ghost snap = *self;
        let col = &mut self.columns[k];
        if len != col.reported_len {
            col.reported_len = len;
            proof {
                assert(self.caps() =~= old(self).caps());
                let c = self.columns@[k as int];
                let o = snap.columns@[k as int];
                assert(c.ids == o.ids && c.pending == o.pending && c.values == o.values && c.capacity == o.capacity
                    && c.index_offset == o.index_offset);
                assert(o.ok(self.inner.contents()));
                assert(self.columns@ =~= snap.columns@.update(k as int, c));
                assert forall|m: int| 0 <= m < self.columns@.len() implies #[trigger] self.columns@[m].ok(self.inner.contents()) by {
                    if m != k {
                        assert(snap.columns@[m].ok(self.inner.contents()));
                    }
                };
                assert(self.caps() =~= snap.caps());
                assert forall|m: int| 0 <= m < self.columns@.len() implies #[trigger] self.columns@[m].index_offset == prefix_sum(self.caps(), m) by {
                    assert(snap.columns@[m].index_offset == prefix_sum(snap.caps(), m));
                };
            }
            Some(ColumnChange::Resized { new_size: len })
        } else {
            proof {
                assert(self.columns@ =~= snap.columns@);
            }
            None
        }
    }

    /// Commits every pending change to the block. Columns that outgrew their
    /// region get a doubled region (or exactly what they need, if more), and
    /// the columns are repacked with no gaps in one new block; then the
    /// waiting records are written. Returns whether the block grew, and the
    /// columns that moved (after the first one that grew, in order) followed
    /// by the columns whose live count changed since the last report.
    pub fn apply_changes(&mut self) -> (r: (bool, Vec<(u16, ColumnChange)>))
        requires
            old(self).wf(),
            forall|k: int| 0 <= k < old(self).num_columns() ==> needed_cap(#[trigger] old(self).caps()[k] as nat, old(self).lens()[k] as nat) <= usize::MAX,
            prefix_sum(old(self).needed_caps(), old(self).num_columns() as int) <= usize::MAX,
        ensures
            final(self).wf(),
            final(self).is_settled(),
            final(self).holds_all_records(),
            final(self).num_columns() == old(self).num_columns(),
            final(self).lens() == old(self).lens(),
            forall|k: int| 0 <= k < old(self).num_columns() ==> {
                &&& #[trigger] final(self).allocator(k) == old(self).allocator(k)
                &&& final(self).values(k) == old(self).values(k)
            },
            final(self).caps() == old(self).needed_caps(),
            forall|k: int| 0 <= k < old(self).num_columns() ==> #[trigger] final(self).offsets()[k] == prefix_sum(old(self).needed_caps(), k),
            final(self).block().committed() == old(self).block().committed(),
            final(self).block().spec_capacity() == prefix_sum(old(self).needed_caps(), old(self).num_columns() as int),
            r.0 == (exists|k: int| 0 <= k < old(self).num_columns() && #[trigger] old(self).lens()[k] > old(self).caps()[k]),
            r.1@ == moved_report(old(self).caps(), old(self).needed_caps(), old(self).num_columns() as int)
                + resized_report(old(self).lens(), old(self).reported(), old(self).num_columns() as int),
            forall|k: int| 0 <= k < old(self).num_columns() ==> #[trigger] final(self).is_flushed(k),
            old(self).is_settled() && (forall|k: int| 0 <= k < old(self).num_columns() ==> #[trigger] old(self).is_flushed(k))
                ==> final(self).block() == old(self).block(),
            ({
                let o = old(self).block().pending_ops();
                let f = final(self).block().pending_ops();
                let start: int = if r.0 { o.len() + 1int } else { o.len() as int };
                &&& start <= f.len()
                &&& f.subrange(0, o.len() as int) == o
                &&& r.0 ==> is_grow(
                    f[o.len() as int],
                    prefix_sum(old(self).needed_caps(), old(self).num_columns() as int) as nat,
                    repack_plan(old(self).caps(), old(self).needed_caps(), old(self).num_columns() as int),
                )
                &&& forall|j: int| start <= j < f.len() ==> #[trigger] f[j] is Write
            }),
    {
        let ghost oc = self.caps();
        let ghost lens = self.lens();
        let ghost rep = self.reported();
        let ghost need = self.needed_caps();
        let ghost o = self.inner.pending_ops();
        let ghost quiet = self.is_settled() && (forall|k: int| 0 <= k < self.num_columns() ==> #[trigger] self.is_flushed(k));
        let n = self.columns.len();
        let (new_caps, total) = self.needed_capacities();
        proof {
            assert forall|m: int| 0 <= m < n implies #[trigger] oc[m] <= need[m] && lens[m] <= need[m] by {};
        }
        let grew = total > self.ttl_capacity;
        let mut changes: Vec<(u16, ColumnChange)>;
        if grew {
            changes = self.relocate(&new_caps, total);
            proof {
                let newc = self.inner.contents();
                let oldc = old(self).inner.contents();
                assert(self.caps() =~= need);
                assert forall|k: int| 0 <= k < n implies #[trigger] self.columns@[k].ok(newc) by {
                    let c = self.columns@[k];
                    let o = old(self).columns@[k];
                    assert(o.ok(oldc));
                    assert(o.index_offset == prefix_sum(oc, k));
                    assert forall|i: int| 0 <= i < c.ids.spec_len() implies match #[trigger] c.pending@[i] {
                        Some(v) => v == c.values@[i],
                        None => i < c.capacity && c.index_offset + i < newc.len()
                            && newc[c.index_offset + i] == Some(c.values@[i]),
                    } by {
                        assert(c.pending@[i] == o.pending@[i]);
                        if c.pending@[i].is_none() {
                            assert(oc[k] == o.capacity);
                            assert(newc[prefix_sum(need, k) + i] == oldc[prefix_sum(oc, k) + i]);
                            lemma_prefix_sum_mono(need, k, n as int);
                            lemma_prefix_sum_mono(need, 0, k);
                        }
                    };
                };
            }
        } else {
            changes = Vec::new();
            proof {
                lemma_prefix_sum_grow(oc, need, 0, n as int);
                lemma_prefix_sum_equal(oc, need);
                lemma_no_growth_no_moves(oc, need, n as int);
            }
        }
        proof {
            assert(self.caps() =~= need);
            if grew {
                if !(exists|k: int| 0 <= k < n && #[trigger] lens[k] > oc[k]) {
                    assert(need =~= oc);
                }
            } else {
                assert forall|k: int| 0 <= k < n implies !(#[trigger] lens[k] > oc[k]) by {
                    assert(need[k] == oc[k]);
                };
            }
            assert(changes@ == moved_report(oc, need, n as int) + resized_report(lens, rep, 0));
            if quiet {
                assert forall|k: int| 0 <= k < n implies !(#[trigger] lens[k] > oc[k]) by {
                    assert(old(self).lens()[k] <= old(self).caps()[k]);
                };
            }
        }
        let ghost start_ops = self.inner.pending_ops();
        proof {
            assert(start_ops.subrange(0, o.len() as int) =~= o);
        }
        let mut k: usize = 0;
        while k < n
            invariant
                self.wf(),
                n == self.columns@.len(),
                k <= n,
                self.caps() == need,
                self.lens() == lens,
                n == old(self).columns@.len(),
                rep == old(self).reported(),
                lens == old(self).lens(),
                oc == old(self).caps(),
                need == old(self).needed_caps(),
                self.inner.committed() == old(self).inner.committed(),
                self.inner.spec_capacity() == prefix_sum(need, n as int),
                forall|m: int| 0 <= m < n ==> #[trigger] lens[m] <= need[m],
                forall|m: int| 0 <= m < k ==> self.is_flushed(m),
                forall|m: int| 0 <= m < n ==> {
                    let c = #[trigger] self.columns@[m];
                    let o = old(self).columns@[m];
                    &&& c.index_offset == prefix_sum(need, m)
                    &&& c.ids == o.ids
                    &&& c.values == o.values
                    &&& m < k ==> c.reported_len == c.ids.spec_len()
                    &&& m >= k ==> c.reported_len == o.reported_len
                },
                changes@ == moved_report(oc, need, n as int) + resized_report(lens, rep, k as int),
                forall|m: int| k <= m < n ==> #[trigger] self.columns@[m].pending == old(self).columns@[m].pending,
                quiet ==> self.inner == old(self).inner,
                quiet == (old(self).is_settled() && (forall|m: int| 0 <= m < n ==> #[trigger] old(self).is_flushed(m))),
                self.inner.pending_ops().len() >= start_ops.len(),
                self.inner.pending_ops().subrange(0, start_ops.len() as int) == start_ops,
                forall|j: int| start_ops.len() <= j < self.inner.pending_ops().len() ==> #[trigger] self.inner.pending_ops()[j] is Write,
            decreases n - k,
        {
            proof {
                assert(rep[k as int] == old(self).columns@[k as int].reported_len);
                assert(self.reported()[k as int] == rep[k as int]);
            }
            let ghost before = *self;
            proof {
                if quiet {
                    assert(old(self).is_flushed(k as int));
                    assert(self.columns@[k as int].pending == old(self).columns@[k as int].pending);
                    assert(self.is_flushed(k as int));
                }
            }
            let r = self.flush_column(k);
            proof {
                let b = before.inner.pending_ops();
                let f = self.inner.pending_ops();
                assert(f.subrange(0, start_ops.len() as int) =~= b.subrange(0, start_ops.len() as int));
                assert forall|j: int| start_ops.len() <= j < f.len() implies #[trigger] f[j] is Write by {
                    if j < b.len() {
                        assert(f[j] == f.subrange(0, b.len() as int)[j]);
                    }
                };
            }
            match r {
                Some(ch) => {
                    changes.push((k as u16, ch));
                },
                None => {},
            }
            proof {
                assert(self.caps() =~= need);
                assert(self.lens() =~= lens);
                assert forall|m: int| 0 <= m < k + 1 implies self.is_flushed(m) by {
                    if m < k {
                        assert(before.is_flushed(m));
                        assert(self.columns@[m].pending == before.columns@[m].pending);
                    }
                };
                let rs = resized_report(lens, rep, k as int);
                let mv = moved_report(oc, need, n as int);
                if lens[k as int] != rep[k as int] {
                    assert((mv + rs).push((k as u16, r.unwrap())) =~= mv + rs.push((k as u16, r.unwrap())));
                }
            }
            k = k + 1;
        }
        proof {
            assert(self.offsets() =~= Seq::new(n as nat, |m: int| prefix_sum(need, m) as usize));
            assert(self.reported() =~= lens);
            assert forall|m: int, i: int| 0 <= m < n && 0 <= i < self.lens()[m] implies
                #[trigger] self.block().contents()[self.offsets()[m] + i] == Some(#[trigger] self.values(m)[i]) by {
                assert(self.is_flushed(m));
                assert(self.columns@[m].ok(self.inner.contents()));
                assert(self.columns@[m].pending@[i] == None::<T>);
            };
        }
        (grew, changes)
    }
}

/// Once `apply_changes` has run, running it again with no push or remove in
/// between changes nothing: no column needs room, the block does not grow,
/// and the report is empty.
pub proof fn lemma_apply_changes_idempotent<T: Copy>(s: &DenseMapped2d<T>)
    requires
        s.is_settled(),
    ensures
        s.needed_caps() == s.caps(),
        !(exists|k: int| 0 <= k < s.num_columns() && #[trigger] s.lens()[k] > s.caps()[k]),
        moved_report(s.caps(), s.needed_caps(), s.num_columns() as int) + resized_report(
            s.lens(),
            s.reported(),
            s.num_columns() as int,
        ) == Seq::<(u16, ColumnChange)>::empty(),
{
    let n = s.num_columns() as int;
    assert(s.caps().len() == n && s.lens().len() == n && s.reported().len() == n);
    assert(s.needed_caps() =~= s.caps());
    lemma_no_growth_no_moves(s.caps(), s.needed_caps(), n);
    lemma_no_resizes(s.lens(), s.reported(), n);
    assert(moved_report(s.caps(), s.needed_caps(), n) + resized_report(s.lens(), s.reported(), n) =~= Seq::<(u16, ColumnChange)>::empty());
}

proof fn lemma_no_resizes(lens: Seq<usize>, reported: Seq<usize>, k: int)
    requires
        0 <= k <= lens.len(),
        lens.len() == reported.len(),
        forall|i: int| 0 <= i < lens.len() ==> #[trigger] lens[i] == reported[i],
    ensures
        resized_report(lens, reported, k) == Seq::<(u16, ColumnChange)>::empty(),
    decreases k,
{
    if k > 0 {
        lemma_no_resizes(lens, reported, k - 1);
    }
}

} // verus!
