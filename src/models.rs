use vstd::prelude::*;
use crate::columnar::{
    grows_before, lemma_prefix_sum_agree, lemma_prefix_sum_mono, moved_report, prefix_sum,
    resized_report, sizes_of, ColumnChange, DenseMapped2d, Slot2dId,
};
use crate::device::DeviceOp;
use crate::indirect::{changes_fit, synced, DrawArgs, IndirectBuffer, PartialWrite};

verus! {

/// What a mesh contributes to the draw arguments: its index and vertex
/// counts, and how many instances it starts with.
#[derive(Debug, Clone, Copy, PartialEq, Eq, Structural)]
pub struct MeshCounts {
    pub index_count: u32,
    pub vertex_count: u32,
    pub instance_count: u16,
}

pub open spec fn index_counts(meshes: Seq<MeshCounts>) -> Seq<usize> {
    meshes.map_values(|m: MeshCounts| m.index_count as usize)
}

pub open spec fn vertex_counts(meshes: Seq<MeshCounts>) -> Seq<usize> {
    meshes.map_values(|m: MeshCounts| m.vertex_count as usize)
}

pub open spec fn instance_counts(meshes: Seq<MeshCounts>) -> Seq<usize> {
    meshes.map_values(|m: MeshCounts| m.instance_count as usize)
}

/// The draw arguments of mesh `k` when the meshes' indices, vertices and
/// instances are laid out one mesh after another.
pub open spec fn draw_args_spec(meshes: Seq<MeshCounts>, k: int) -> DrawArgs {
    DrawArgs {
        index_count: meshes[k].index_count,
        instance_count: meshes[k].instance_count as u32,
        first_index: prefix_sum(index_counts(meshes), k) as u32,
        base_vertex: prefix_sum(vertex_counts(meshes), k) as i32,
        first_instance: prefix_sum(instance_counts(meshes), k) as u32,
    }
}

/// One draw-argument record per mesh, for meshes whose indices, vertices and
/// instances are packed one mesh after another.
pub fn draw_args_for(meshes: &Vec<MeshCounts>) -> (r: Vec<DrawArgs>)
    requires
        prefix_sum(index_counts(meshes@), meshes@.len() as int) <= u32::MAX,
        prefix_sum(vertex_counts(meshes@), meshes@.len() as int) <= i32::MAX,
        prefix_sum(instance_counts(meshes@), meshes@.len() as int) <= u32::MAX,
    ensures
        r@.len() == meshes@.len(),
        forall|k: int| 0 <= k < meshes@.len() ==> #[trigger] r@[k] == draw_args_spec(meshes@, k),
{
    let ghost ic = index_counts(meshes@);
    let ghost vc = vertex_counts(meshes@);
    let ghost nc = instance_counts(meshes@);
    let n = meshes.len();
    let mut r: Vec<DrawArgs> = Vec::new();
    let mut first_index: u32 = 0;
    let mut base_vertex: u32 = 0;
    let mut first_instance: u32 = 0;
    let mut k: usize = 0;
    while k < n
        invariant
            n == meshes@.len(),
            k <= n,
            ic == index_counts(meshes@),
            vc == vertex_counts(meshes@),
            nc == instance_counts(meshes@),
            prefix_sum(ic, n as int) <= u32::MAX,
            prefix_sum(vc, n as int) <= i32::MAX,
            prefix_sum(nc, n as int) <= u32::MAX,
            first_index == prefix_sum(ic, k as int),
            base_vertex == prefix_sum(vc, k as int),
            first_instance == prefix_sum(nc, k as int),
            r@.len() == k,
            forall|m: int| 0 <= m < k ==> #[trigger] r@[m] == draw_args_spec(meshes@, m),
        decreases n - k,
    {
        let m = meshes[k];
        proof {
            lemma_prefix_sum_mono(ic, k as int + 1, n as int);
            lemma_prefix_sum_mono(vc, k as int + 1, n as int);
            lemma_prefix_sum_mono(nc, k as int + 1, n as int);
            assert(ic[k as int] == m.index_count);
            assert(vc[k as int] == m.vertex_count);
            assert(nc[k as int] == m.instance_count);
        }
        r.push(
            DrawArgs {
                index_count: m.index_count,
                instance_count: m.instance_count as u32,
                first_index,
                base_vertex: base_vertex as i32,
                first_instance,
            },
        );
        first_index = first_index + m.index_count;
        base_vertex = base_vertex + m.vertex_count;
        first_instance = first_instance + m.instance_count as u32;
        k = k + 1;
    }
    r
}

/// The address of a model instance: its model, its mesh there, and its slot
/// in the instance storage.
#[derive(Debug, Clone, Copy, PartialEq, Eq, Structural)]
pub struct ModelInstanceId {
    pub model_id: u16,
    pub mesh_id: u16,
    pub instance_id: Slot2dId,
}

/// Whether draw record `k` starts at column `k`'s offset and draws its
/// reported number of instances, for every column.
pub open spec fn args_in_sync(args: Seq<DrawArgs>, offsets: Seq<usize>, reported: Seq<usize>) -> bool {
    &&& args.len() == offsets.len()
    &&& args.len() == reported.len()
    &&& forall|k: int| 0 <= k < args.len() ==> {
        &&& #[trigger] args[k].first_instance == offsets[k]
        &&& args[k].instance_count == reported[k]
    }
}

/// The instances of every mesh of every model, one column per mesh, with one
/// indirect draw record per column kept in line with the storage.
pub struct ModelsBuffer<T> {
    instance_buffer: DenseMapped2d<T>,
    indirect_buffer: IndirectBuffer,
    meshes_count: Vec<u16>,
    first_column: Vec<usize>,
}

impl<T: Copy> ModelsBuffer<T> {
    pub closed spec fn storage(&self) -> DenseMapped2d<T> {
        self.instance_buffer
    }

    pub closed spec fn indirect(&self) -> IndirectBuffer {
        self.indirect_buffer
    }

    /// The number of meshes of each model.
    pub closed spec fn meshes(&self) -> Seq<u16> {
        self.meshes_count@
    }

    /// The column that holds the instances of mesh `mesh_id` of model `model_id`.
    pub open spec fn column_of(&self, model_id: int, mesh_id: int) -> int {
        prefix_sum(sizes_of(self.meshes()), model_id) + mesh_id
    }

    pub closed spec fn wf(&self) -> bool {
        &&& self.instance_buffer.wf()
        &&& args_in_sync(self.indirect_buffer.args(), self.instance_buffer.offsets(), self.instance_buffer.reported())
        &&& self.first_column@.len() == self.meshes_count@.len()
        &&& prefix_sum(sizes_of(self.meshes_count@), self.meshes_count@.len() as int) == self.instance_buffer.num_columns()
        &&& forall|m: int| 0 <= m < self.first_column@.len() ==> #[trigger] self.first_column@[m] == prefix_sum(sizes_of(self.meshes_count@), m)
    }

    /// Instances `instances`, packed per mesh as `meshes` gives their counts,
    /// for models whose mesh counts are `meshes_count`, in order.
    pub fn from_raw(instances: Vec<T>, meshes: &Vec<MeshCounts>, meshes_count: Vec<u16>) -> (r: Self)
        requires
            meshes@.len() <= 0x1_0000,
            prefix_sum(sizes_of(meshes_count@), meshes_count@.len() as int) == meshes@.len(),
            prefix_sum(instance_counts(meshes@), meshes@.len() as int) == instances@.len(),
            prefix_sum(index_counts(meshes@), meshes@.len() as int) <= u32::MAX,
            prefix_sum(vertex_counts(meshes@), meshes@.len() as int) <= i32::MAX,
            instances@.len() <= u32::MAX,
        ensures
            r.wf(),
            r.meshes() == meshes_count@,
            r.storage().num_columns() == meshes@.len(),
            r.storage().block().contents() == instances@.map_values(|v: T| Some(v)),
            r.storage().is_settled(),
            r.storage().caps() == instance_counts(meshes@),
            forall|k: int| 0 <= k < meshes@.len() ==> #[trigger] r.storage().offsets()[k] == prefix_sum(instance_counts(meshes@), k),
            forall|k: int| 0 <= k < meshes@.len() ==> {
                &&& #[trigger] r.storage().lens()[k] == meshes@[k].instance_count
                &&& r.indirect().args()[k] == draw_args_spec(meshes@, k)
            },
    {
        let args = draw_args_for(meshes);
        let n = meshes.len();
        let mut sizes: Vec<u16> = Vec::new();
        let mut k: usize = 0;
        while k < n
            invariant
                n == meshes@.len(),
                k <= n,
                sizes@.len() == k,
                forall|m: int| 0 <= m < k ==> #[trigger] sizes@[m] == meshes@[m].instance_count,
            decreases n - k,
        {
            sizes.push(meshes[k].instance_count);
            k = k + 1;
        }
        proof {
            assert(sizes_of(sizes@) =~= instance_counts(meshes@));
        }
        let ghost sz = sizes@;
        let instance_buffer = DenseMapped2d::new(instances, sizes);
        let models = meshes_count.len();
        let mut first_column: Vec<usize> = Vec::new();
        let mut acc: usize = 0;
        let mut j: usize = 0;
        let ghost mc = sizes_of(meshes_count@);
        while j < models
            invariant
                models == meshes_count@.len(),
                mc == sizes_of(meshes_count@),
                prefix_sum(mc, models as int) == n,
                n <= 0x1_0000,
                j <= models,
                acc == prefix_sum(mc, j as int),
                first_column@.len() == j,
                forall|m: int| 0 <= m < j ==> #[trigger] first_column@[m] == prefix_sum(mc, m),
            decreases models - j,
        {
            proof {
                lemma_prefix_sum_mono(mc, j as int + 1, models as int);
            }
            first_column.push(acc);
            acc = acc + meshes_count[j] as usize;
            j = j + 1;
        }
        let indirect_buffer = IndirectBuffer::new(args);
        let r = ModelsBuffer { instance_buffer, indirect_buffer, meshes_count, first_column };
        proof {
            let s = r.instance_buffer;
            s.lemma_layout();
            assert forall|k: int| 0 <= k < n implies {
                &&& #[trigger] r.indirect_buffer.args()[k].first_instance == s.offsets()[k]
                &&& r.indirect_buffer.args()[k].instance_count == s.reported()[k]
            } by {
                assert(s.offsets()[k] == prefix_sum(sizes_of(sz), k));
                assert(s.reported()[k] == sizes_of(sz)[k]);
                lemma_prefix_sum_mono(instance_counts(meshes@), k, n as int);
                lemma_prefix_sum_mono(instance_counts(meshes@), 0, k);
            };
            assert forall|k: int| 0 <= k < n implies #[trigger] s.lens()[k] == meshes@[k].instance_count by {
                assert(s.lens()[k] == s.reported()[k]);
            };
        }
        r
    }

    /// Adds an instance of mesh `mesh_id` of model `model_id`; it is drawn
    /// once `apply_changes` has run.
    pub fn add_instance(&mut self, model_id: u16, mesh_id: u16, instance: T) -> (r: ModelInstanceId)
        requires
            old(self).wf(),
            model_id < old(self).meshes().len(),
            mesh_id < old(self).meshes()[model_id as int],
            old(self).storage().allocator(old(self).column_of(model_id as int, mesh_id as int)).next_handle() < u32::MAX,
        ensures
            final(self).wf(),
            final(self).meshes() == old(self).meshes(),
            r.model_id == model_id,
            r.mesh_id == mesh_id,
            r.instance_id.row_id == old(self).column_of(model_id as int, mesh_id as int),
            ({
                let c = old(self).column_of(model_id as int, mesh_id as int);
                &&& final(self).storage().allocator(c).handles() == old(self).storage().allocator(c).handles().push(r.instance_id.dense)
                &&& final(self).storage().values(c) == old(self).storage().values(c).push(instance)
            }),
            forall|k: int| 0 <= k < old(self).storage().num_columns() && k != old(self).column_of(model_id as int, mesh_id as int) ==> {
                &&& #[trigger] final(self).storage().allocator(k) == old(self).storage().allocator(k)
                &&& final(self).storage().values(k) == old(self).storage().values(k)
            },
            final(self).indirect() == old(self).indirect(),
    {
        let ghost mc = sizes_of(self.meshes_count@);
        proof {
            let models = self.meshes_count@.len() as int;
            self.instance_buffer.lemma_layout();
            lemma_prefix_sum_mono(mc, model_id as int, models);
            assert(mc[model_id as int] == self.meshes_count@[model_id as int]);
            assert(self.first_column@[model_id as int] == prefix_sum(mc, model_id as int));
        }
        let column = self.first_column[model_id as usize] + mesh_id as usize;
        let instance_id = self.instance_buffer.push(column as u16, instance);
        ModelInstanceId { model_id, mesh_id, instance_id }
    }

    /// Removes an instance; the last instance of its mesh takes its place.
    pub fn remove_instance(&mut self, id: ModelInstanceId)
        requires
            old(self).wf(),
            id.instance_id.row_id < old(self).storage().num_columns(),
        ensures
            final(self).wf(),
            final(self).meshes() == old(self).meshes(),
            final(self).indirect() == old(self).indirect(),
            ({
                let c = id.instance_id.row_id as int;
                let a = old(self).storage().allocator(c);
                let v = old(self).storage().values(c);
                &&& !a.contains(id.instance_id.dense) ==> final(self).storage().allocator(c).handles() == a.handles()
                    && final(self).storage().values(c) == v
                &&& a.contains(id.instance_id.dense) ==> final(self).storage().allocator(c).handles()
                    == crate::dense::swap_remove_seq(a.handles(), a.index_of(id.instance_id.dense))
                    && final(self).storage().values(c) == crate::dense::swap_remove_seq(v, a.index_of(id.instance_id.dense))
            }),
            forall|k: int|
                #![trigger final(self).storage().allocator(k)]
                0 <= k < old(self).storage().num_columns() && k != id.instance_id.row_id as int ==> {
                &&& final(self).storage().allocator(k) == old(self).storage().allocator(k)
                &&& final(self).storage().values(k) == old(self).storage().values(k)
            },
    {
        self.instance_buffer.remove(id.instance_id);
        proof {
            assert forall|k: int| 0 <= k < old(self).storage().num_columns() && k != id.instance_id.row_id as int implies {
                &&& #[trigger] self.storage().allocator(k) == old(self).storage().allocator(k)
                &&& self.storage().values(k) == old(self).storage().values(k)
            } by {
                assert(self.instance_buffer.allocator(k) == old(self).instance_buffer.allocator(k));
            };
            assert(self.storage().num_columns() == old(self).storage().num_columns());
        }
    }

    /// The number of meshes over all models, one draw record each.
    pub fn model_count(&self) -> (r: u32)
        requires
            self.wf(),
        ensures
            r == self.storage().num_columns(),
    {
        proof {
            self.instance_buffer.lemma_layout();
        }
        self.instance_buffer.columns_len() as u32
    }

    /// Commits the instance storage and patches the draw records from its
    /// change report. Returns whether the instance block grew. Afterwards
    /// every draw record starts at its column's offset and draws its
    /// column's live instances.
    pub fn apply_changes(&mut self) -> (grew: bool)
        requires
            old(self).wf(),
            forall|k: int| 0 <= k < old(self).storage().num_columns() ==> crate::columnar::needed_cap(
                #[trigger] old(self).storage().caps()[k] as nat,
                old(self).storage().lens()[k] as nat,
            ) <= usize::MAX,
            prefix_sum(old(self).storage().needed_caps(), old(self).storage().num_columns() as int) <= u32::MAX,
        ensures
            final(self).wf(),
            final(self).meshes() == old(self).meshes(),
            final(self).storage().is_settled(),
            final(self).storage().holds_all_records(),
            final(self).storage().lens() == old(self).storage().lens(),
            forall|k: int| 0 <= k < old(self).storage().num_columns() ==> {
                &&& #[trigger] final(self).storage().allocator(k) == old(self).storage().allocator(k)
                &&& final(self).storage().values(k) == old(self).storage().values(k)
            },
            grew == (exists|k: int| 0 <= k < old(self).storage().num_columns() && #[trigger] old(self).storage().lens()[k] > old(self).storage().caps()[k]),
            forall|k: int| 0 <= k < final(self).storage().num_columns() ==> {
                &&& #[trigger] final(self).indirect().args()[k].first_instance == final(self).storage().offsets()[k]
                &&& final(self).indirect().args()[k].instance_count == final(self).storage().lens()[k]
            },
            final(self).indirect().args().len() == old(self).indirect().args().len(),
            forall|k: int| 0 <= k < old(self).storage().num_columns() ==> #[trigger] final(self).indirect().args()[k]
                == (DrawArgs {
                    first_instance: final(self).storage().offsets()[k] as u32,
                    instance_count: final(self).storage().lens()[k] as u32,
                    ..old(self).indirect().args()[k]
                }),
            forall|k: int| 0 <= k < old(self).storage().num_columns() && final(self).storage().offsets()[k]
                == old(self).storage().offsets()[k] && old(self).storage().lens()[k] == old(self).storage().reported()[k]
                ==> #[trigger] final(self).indirect().args()[k] == old(self).indirect().args()[k],
    {
        let ghost old_args = self.indirect_buffer.args();
        let ghost s0 = self.instance_buffer;
        proof {
            s0.lemma_layout();
        }
        let (grew, changes) = self.instance_buffer.apply_changes();
        let ghost n = s0.num_columns() as int;
        let ghost caps = s0.caps();
        let ghost need = s0.needed_caps();
        let ghost lens = s0.lens();
        let ghost rep = s0.reported();
        proof {
            assert(caps.len() == n && need.len() == n && lens.len() == n && rep.len() == n);
            assert forall|m: int| 0 <= m < n implies #[trigger] need[m] >= caps[m] && need[m] >= lens[m] by {};
            assert forall|m: int| 0 <= m < n implies #[trigger] old_args[m].first_instance == prefix_sum(caps, m) by {
                assert(s0.offsets()[m] == prefix_sum(caps, m));
            };
            lemma_moved_sync(old_args, caps, need, n);
            let mid = synced(old_args, moved_report(caps, need, n));
            assert forall|m: int| 0 <= m < n implies #[trigger] mid[m].instance_count == rep[m] by {
                assert(mid[m] == DrawArgs { first_instance: prefix_sum(need, m) as u32, ..old_args[m] });
                assert(old_args[m].first_instance == s0.offsets()[m]);
                assert(old_args[m].instance_count == rep[m]);
            };
            assert forall|m: int| 0 <= m < n implies #[trigger] lens[m] <= u32::MAX by {
                lemma_prefix_sum_mono(need, m, n);
                lemma_prefix_sum_mono(need, 0, m);
            };
            lemma_resized_sync(synced(old_args, moved_report(caps, need, n)), lens, rep, n);
            lemma_synced_concat(old_args, moved_report(caps, need, n), resized_report(lens, rep, n));
            lemma_report_fits(caps, need, lens, rep, n);
        }
        self.indirect_buffer.apply_column_changes(&changes);
        proof {
            let s = self.instance_buffer;
            s.lemma_layout();
            let mid = synced(old_args, moved_report(caps, need, n));
            assert forall|k: int| 0 <= k < n implies #[trigger] self.indirect_buffer.args()[k]
                == (DrawArgs { first_instance: s.offsets()[k] as u32, instance_count: s.lens()[k] as u32, ..old_args[k] }) by {
                assert(mid[k] == DrawArgs { first_instance: prefix_sum(need, k) as u32, ..old_args[k] });
                assert(s.offsets()[k] == prefix_sum(need, k));
            };
            assert forall|k: int| 0 <= k < n implies {
                &&& #[trigger] self.indirect_buffer.args()[k].first_instance == s.offsets()[k]
                &&& self.indirect_buffer.args()[k].instance_count == s.reported()[k]
            } by {
                assert(s.reported()[k] == s.lens()[k]);
                lemma_prefix_sum_mono(need, k, n);
                lemma_prefix_sum_mono(need, 0, k);
            };
            assert forall|k: int| 0 <= k < n && s.offsets()[k] == s0.offsets()[k] && lens[k] == rep[k]
                implies #[trigger] self.indirect_buffer.args()[k] == old_args[k] by {
                assert(old_args[k].first_instance == s0.offsets()[k]);
                assert(old_args[k].instance_count == rep[k]);
                lemma_prefix_sum_mono(need, k, n);
                lemma_prefix_sum_mono(need, 0, k);
            };
        }
        grew
    }

    /// Hands out the instance-block commands and the draw-record writes
    /// queued since the last call, oldest first.
    pub fn take_commands(&mut self) -> (r: (Vec<DeviceOp<T>>, Vec<PartialWrite>))
        requires
            old(self).wf(),
        ensures
            final(self).wf(),
            r.0@ == old(self).storage().block().pending_ops(),
            r.1@ == old(self).indirect().pending_writes(),
            final(self).meshes() == old(self).meshes(),
            final(self).indirect().args() == old(self).indirect().args(),
    {
        let ops = self.instance_buffer.take_commands();
        let writes = self.indirect_buffer.take_writes();
        proof {
            assert(self.instance_buffer.offsets() == old(self).instance_buffer.offsets());
        }
        (ops, writes)
    }

    /// The draw records, as the device holds them once the queued writes run.
    pub fn indirect_args(&self) -> (r: &Vec<DrawArgs>)
        ensures
            r@ == self.indirect().args(),
    {
        self.indirect_buffer.records()
    }
}

proof fn lemma_synced_concat(args: Seq<DrawArgs>, a: Seq<(u16, ColumnChange)>, b: Seq<(u16, ColumnChange)>)
    ensures
        synced(args, a + b) == synced(synced(args, a), b),
    decreases b.len(),
{
    if b.len() == 0 {
        assert(a + b =~= a);
    } else {
        lemma_synced_concat(args, a, b.drop_last());
        assert((a + b).drop_last() =~= a + b.drop_last());
        assert((a + b).last() == b.last());
    }
}

proof fn lemma_no_growth_before(caps: Seq<usize>, need: Seq<usize>, k: int)
    requires
        0 <= k <= caps.len(),
        caps.len() == need.len(),
        forall|m: int| 0 <= m < caps.len() ==> #[trigger] need[m] >= caps[m],
        !grows_before(caps, need, k),
    ensures
        forall|m: int| 0 <= m < k ==> #[trigger] need[m] == caps[m],
    decreases k,
{
    if k > 0 {
        lemma_no_growth_before(caps, need, k - 1);
    }
}

proof fn lemma_moved_sync(args: Seq<DrawArgs>, caps: Seq<usize>, need: Seq<usize>, k: int)
    requires
        0 <= k <= args.len(),
        args.len() == caps.len(),
        caps.len() == need.len(),
        args.len() <= 0x1_0000,
        forall|m: int| 0 <= m < caps.len() ==> #[trigger] need[m] >= caps[m],
        forall|m: int| 0 <= m < args.len() ==> #[trigger] args[m].first_instance == prefix_sum(caps, m),
        prefix_sum(need, need.len() as int) <= u32::MAX,
    ensures
        ({
            let r = synced(args, moved_report(caps, need, k));
            &&& r.len() == args.len()
            &&& forall|m: int| 0 <= m < k ==> #[trigger] r[m] == DrawArgs { first_instance: prefix_sum(need, m) as u32, ..args[m] }
            &&& forall|m: int| k <= m < args.len() ==> #[trigger] r[m] == args[m]
        }),
    decreases k,
{
    if k > 0 {
        lemma_moved_sync(args, caps, need, k - 1);
        let prev = synced(args, moved_report(caps, need, k - 1));
        lemma_prefix_sum_mono(need, k - 1, need.len() as int);
        lemma_prefix_sum_mono(need, 0, k - 1);
        if grows_before(caps, need, k - 1) {
            let rep = moved_report(caps, need, k - 1);
            let x = ((k - 1) as u16, ColumnChange::Moved { new_offset: prefix_sum(need, k - 1) as usize });
            assert(rep.push(x).drop_last() =~= rep);
            assert(moved_report(caps, need, k) == rep.push(x));
            assert(synced(args, rep.push(x)) == prev.update(
                k - 1,
                DrawArgs { first_instance: prefix_sum(need, k - 1) as u32, ..prev[k - 1] },
            ));
        } else {
            lemma_no_growth_before(caps, need, k - 1);
            lemma_prefix_sum_agree(caps, need, k - 1);
            assert(prev[k - 1] == args[k - 1]);
            assert(prefix_sum(caps, k - 1) == prefix_sum(need, k - 1));
            assert(args[k - 1].first_instance == prefix_sum(need, k - 1) as u32);
            assert(args[k - 1] == DrawArgs { first_instance: prefix_sum(need, k - 1) as u32, ..args[k - 1] });
        }
    }
}

proof fn lemma_resized_sync(args: Seq<DrawArgs>, lens: Seq<usize>, reported: Seq<usize>, k: int)
    requires
        0 <= k <= args.len(),
        args.len() == lens.len(),
        lens.len() == reported.len(),
        args.len() <= 0x1_0000,
        forall|m: int| 0 <= m < args.len() ==> #[trigger] args[m].instance_count == reported[m],
        forall|m: int| 0 <= m < args.len() ==> #[trigger] lens[m] <= u32::MAX,
    ensures
        ({
            let r = synced(args, resized_report(lens, reported, k));
            &&& r.len() == args.len()
            &&& forall|m: int| 0 <= m < k ==> #[trigger] r[m] == DrawArgs { instance_count: lens[m] as u32, ..args[m] }
            &&& forall|m: int| k <= m < args.len() ==> #[trigger] r[m] == args[m]
        }),
    decreases k,
{
    if k > 0 {
        lemma_resized_sync(args, lens, reported, k - 1);
        let prev = synced(args, resized_report(lens, reported, k - 1));
        if lens[k - 1] != reported[k - 1] {
            let rep = resized_report(lens, reported, k - 1);
            let x = ((k - 1) as u16, ColumnChange::Resized { new_size: lens[k - 1] });
            assert(rep.push(x).drop_last() =~= rep);
            assert(synced(args, rep.push(x)) == prev.update(
                k - 1,
                DrawArgs { instance_count: lens[k - 1] as u32, ..prev[k - 1] },
            ));
        } else {
            assert(prev[k - 1] == args[k - 1]);
            assert(args[k - 1].instance_count == lens[k - 1] as u32);
            assert(args[k - 1] == DrawArgs { instance_count: lens[k - 1] as u32, ..args[k - 1] });
        }
    }
}

proof fn lemma_report_fits(caps: Seq<usize>, need: Seq<usize>, lens: Seq<usize>, reported: Seq<usize>, n: int)
    requires
        0 <= n <= 0x1_0000,
        caps.len() == n,
        need.len() == n,
        lens.len() == n,
        reported.len() == n,
        forall|m: int| 0 <= m < n ==> #[trigger] need[m] >= lens[m],
        prefix_sum(need, n) <= u32::MAX,
    ensures
        changes_fit(n as nat, moved_report(caps, need, n) + resized_report(lens, reported, n)),
{
    lemma_moved_fits(caps, need, n, n);
    lemma_resized_fits(need, lens, reported, n, n);
    let a = moved_report(caps, need, n);
    let b = resized_report(lens, reported, n);
    assert forall|x: int| 0 <= x < (a + b).len() implies {
        &&& (#[trigger] (a + b)[x]).0 < n
        &&& match (a + b)[x].1 {
            ColumnChange::Moved { new_offset } => new_offset <= u32::MAX,
            ColumnChange::Resized { new_size } => new_size <= u32::MAX,
        }
    } by {
        if x < a.len() {
            assert((a + b)[x] == a[x]);
        } else {
            assert((a + b)[x] == b[x - a.len()]);
        }
    };
}

proof fn lemma_moved_fits(caps: Seq<usize>, need: Seq<usize>, k: int, n: int)
    requires
        0 <= k <= n <= 0x1_0000,
        need.len() == n,
        prefix_sum(need, n) <= u32::MAX,
    ensures
        changes_fit(k as nat, moved_report(caps, need, k)),
        forall|x: int| 0 <= x < moved_report(caps, need, k).len() ==> (#[trigger] moved_report(caps, need, k)[x]).1 is Moved,
    decreases k,
{
    if k > 0 {
        lemma_moved_fits(caps, need, k - 1, n);
        lemma_prefix_sum_mono(need, k - 1, n);
        lemma_prefix_sum_mono(need, 0, k - 1);
        let prev = moved_report(caps, need, k - 1);
        let cur = moved_report(caps, need, k);
        assert forall|x: int| 0 <= x < cur.len() implies {
            &&& (#[trigger] cur[x]).0 < k
            &&& match cur[x].1 {
                ColumnChange::Moved { new_offset } => new_offset <= u32::MAX,
                ColumnChange::Resized { new_size } => new_size <= u32::MAX,
            }
        } by {
            if x < prev.len() {
                assert(cur[x] == prev[x]);
            }
        };
    }
}

proof fn lemma_resized_fits(need: Seq<usize>, lens: Seq<usize>, reported: Seq<usize>, k: int, n: int)
    requires
        0 <= k <= n <= 0x1_0000,
        need.len() == n,
        lens.len() == n,
        reported.len() == n,
        forall|m: int| 0 <= m < n ==> #[trigger] need[m] >= lens[m],
        prefix_sum(need, n) <= u32::MAX,
    ensures
        changes_fit(k as nat, resized_report(lens, reported, k)),
    decreases k,
{
    if k > 0 {
        lemma_resized_fits(need, lens, reported, k - 1, n);
        lemma_prefix_sum_mono(need, k - 1, n);
        lemma_prefix_sum_mono(need, 0, k - 1);
        let prev = resized_report(lens, reported, k - 1);
        let cur = resized_report(lens, reported, k);
        assert forall|x: int| 0 <= x < cur.len() implies {
            &&& (#[trigger] cur[x]).0 < k
            &&& match cur[x].1 {
                ColumnChange::Moved { new_offset } => new_offset <= u32::MAX,
                ColumnChange::Resized { new_size } => new_size <= u32::MAX,
            }
        } by {
            if x < prev.len() {
                assert(cur[x] == prev[x]);
            }
        };
    }
}

} // verus!
