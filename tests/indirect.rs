use gpu_storage::columnar::ColumnChange;
use gpu_storage::indirect::{DrawArgs, IndirectBuffer, PartialWrite};

fn args(n: u32) -> Vec<DrawArgs> {
    (0..n)
        .map(|i| DrawArgs { index_count: 3, instance_count: 1, first_index: 3 * i, base_vertex: 0, first_instance: i })
        .collect()
}

#[test]
fn indirect_writes_use_record_stride() {
    let mut b = IndirectBuffer::new(args(3));
    b.write_instance_count_at_index(2, 7);
    b.write_first_instance_at_index(2, 11);
    assert_eq!(
        b.take_writes(),
        vec![PartialWrite { byte_offset: 44, value: 7 }, PartialWrite { byte_offset: 56, value: 11 }]
    );
    assert_eq!(b.records()[2].instance_count, 7);
    assert_eq!(b.records()[2].first_instance, 11);
    assert_eq!(b.records()[1], args(3)[1]);
    assert!(b.take_writes().is_empty());
}

#[test]
fn indirect_applies_column_changes() {
    let mut b = IndirectBuffer::new(args(2));
    let changes = vec![(1u16, ColumnChange::Moved { new_offset: 4 }), (0u16, ColumnChange::Resized { new_size: 3 })];
    b.apply_column_changes(&changes);
    assert_eq!(b.records()[1].first_instance, 4);
    assert_eq!(b.records()[1].instance_count, 1);
    assert_eq!(b.records()[0].instance_count, 3);
    assert_eq!(b.records()[0].first_instance, 0);
    assert_eq!(
        b.take_writes(),
        vec![PartialWrite { byte_offset: 36, value: 4 }, PartialWrite { byte_offset: 4, value: 3 }]
    );
    assert_eq!(b.len(), 2);
}
