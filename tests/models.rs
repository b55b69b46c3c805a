use gpu_storage::indirect::{DrawArgs, PartialWrite};
use gpu_storage::models::{draw_args_for, MeshCounts, ModelsBuffer};

fn meshes() -> Vec<MeshCounts> {
    vec![
        MeshCounts { index_count: 6, vertex_count: 4, instance_count: 2 },
        MeshCounts { index_count: 3, vertex_count: 3, instance_count: 1 },
        MeshCounts { index_count: 12, vertex_count: 8, instance_count: 0 },
    ]
}

#[test]
fn draw_args_are_prefix_sums() {
    let args = draw_args_for(&meshes());
    assert_eq!(
        args,
        vec![
            DrawArgs { index_count: 6, instance_count: 2, first_index: 0, base_vertex: 0, first_instance: 0 },
            DrawArgs { index_count: 3, instance_count: 1, first_index: 6, base_vertex: 4, first_instance: 2 },
            DrawArgs { index_count: 12, instance_count: 0, first_index: 9, base_vertex: 7, first_instance: 3 },
        ]
    );
}

#[test]
fn models_add_instance_targets_mesh_column() {
    // model 0 has meshes 0 and 1, model 1 has mesh 2
    let mut m = ModelsBuffer::from_raw(vec![1u32, 2, 3], &meshes(), vec![2, 1]);
    assert_eq!(m.model_count(), 3);
    let id = m.add_instance(1, 0, 9);
    assert_eq!(id.model_id, 1);
    assert_eq!(id.mesh_id, 0);
    assert_eq!(id.instance_id.row_id, 2);
    let id2 = m.add_instance(0, 1, 8);
    assert_eq!(id2.instance_id.row_id, 1);
}

#[test]
fn models_apply_changes_patches_draw_records() {
    let mut m = ModelsBuffer::from_raw(vec![1u32, 2, 3], &meshes(), vec![2, 1]);
    m.take_commands();
    m.add_instance(0, 0, 4);
    m.add_instance(1, 0, 5);
    assert!(m.apply_changes());
    let args = m.indirect_args();
    // column 0 grows 2 -> 4; column 1 moves to 4; column 2 grows 0 -> 2 and moves to 5
    assert_eq!(args[0].instance_count, 3);
    assert_eq!(args[0].first_instance, 0);
    assert_eq!(args[1].first_instance, 4);
    assert_eq!(args[1].instance_count, 1);
    assert_eq!(args[2].first_instance, 5);
    assert_eq!(args[2].instance_count, 1);
    assert_eq!(args[2].index_count, 12);
    let (ops, writes) = m.take_commands();
    assert!(!ops.is_empty());
    assert_eq!(
        writes,
        vec![
            PartialWrite { byte_offset: 36, value: 4 },
            PartialWrite { byte_offset: 56, value: 5 },
            PartialWrite { byte_offset: 4, value: 3 },
            PartialWrite { byte_offset: 44, value: 1 },
        ]
    );
    assert!(!m.apply_changes());
    assert!(m.take_commands().1.is_empty());
}

#[test]
fn models_remove_instance_shrinks_draw() {
    let mut m = ModelsBuffer::from_raw(vec![1u32, 2, 3], &meshes(), vec![2, 1]);
    let id = m.add_instance(0, 0, 4);
    m.apply_changes();
    m.remove_instance(id);
    assert!(!m.apply_changes());
    assert_eq!(m.indirect_args()[0].instance_count, 2);
}
