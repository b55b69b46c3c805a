use gpu_storage::columnar::{ColumnChange, DenseMapped2d};
use gpu_storage::device::DeviceOp;
use gpu_storage::growable::Growable;
use gpu_storage::mapped::MappedSparse;

/// Runs device commands on a block held in host memory.
fn run<T: Copy>(block: &mut Vec<Option<T>>, ops: Vec<DeviceOp<T>>) {
    for op in ops {
        match op {
            DeviceOp::Grow { capacity, copies } => {
                let mut fresh: Vec<Option<T>> = vec![None; capacity];
                for c in copies {
                    for t in 0..c.len {
                        fresh[c.dst + t] = block[c.src + t];
                    }
                }
                *block = fresh;
            }
            DeviceOp::Write { index, values } => {
                for (t, v) in values.into_iter().enumerate() {
                    block[index + t] = Some(v);
                }
            }
            DeviceOp::Swap { a, b } => block.swap(a, b),
        }
    }
}

#[test]
fn growable_doubles_and_keeps_records() {
    let mut g = Growable::new_with_capacity(vec![1u32, 2, 3], 3);
    let mut block = Vec::new();
    run(&mut block, g.take_commands());
    assert!(g.maybe_grow(4));
    assert_eq!(g.capacity(), 6);
    run(&mut block, g.take_commands());
    assert_eq!(block.len(), 6);
    assert_eq!(&block[..3], &[Some(1), Some(2), Some(3)]);
}

#[test]
fn growable_grows_to_required_when_larger() {
    let mut g = Growable::new_with_capacity(vec![5u32, 6], 2);
    assert!(g.maybe_grow(9));
    assert_eq!(g.capacity(), 9);
}

#[test]
fn growable_zero_capacity_counts_as_one() {
    let mut g: Growable<u32> = Growable::new_with_capacity(vec![], 0);
    assert!(g.maybe_grow(1));
    assert_eq!(g.capacity(), 2);
}

#[test]
fn growable_does_not_grow_when_it_fits() {
    let mut g = Growable::new_with_capacity(vec![1u32], 4);
    assert!(!g.maybe_grow(4));
    assert_eq!(g.capacity(), 4);
    let mut block = Vec::new();
    run(&mut block, g.take_commands());
    assert_eq!(block, vec![Some(1), None, None, None]);
    assert!(g.take_commands().is_empty());
}

#[test]
fn growable_grow_around_opens_gap_at_insertion_point() {
    let mut g = Growable::new_with_capacity(vec![1u32, 2, 3, 4], 4);
    assert!(g.maybe_grow_around(5, 1));
    assert_eq!(g.capacity(), 8);
    let mut block = Vec::new();
    run(&mut block, g.take_commands());
    assert_eq!(block, vec![Some(1), None, None, None, None, Some(2), Some(3), Some(4)]);
}

#[test]
fn growable_write_and_swap() {
    let mut g = Growable::new_with_capacity(vec![1u32, 2, 3], 3);
    g.write_at_index(2, 9);
    g.swap_at_indices(0, 2);
    let mut block = Vec::new();
    run(&mut block, g.take_commands());
    assert_eq!(block, vec![Some(9), Some(2), Some(1)]);
}

#[test]
fn mapped_push_into_empty_storage() {
    let mut m: MappedSparse<u32> = MappedSparse::new(vec![]);
    assert_eq!(m.capacity(), 0);
    let id = m.push(42);
    assert_eq!(id, 0);
    assert!(m.apply_changes());
    assert!(m.capacity() >= 1);
    assert_eq!(m.len(), 1);
    let mut block = Vec::new();
    run(&mut block, m.take_commands());
    assert_eq!(block[0], Some(42));
}

#[test]
fn mapped_set_remove_and_reuse() {
    let mut m: MappedSparse<u32> = MappedSparse::new(vec![10, 20, 30]);
    let mut block = Vec::new();
    run(&mut block, m.take_commands());
    m.set(1, 21);
    m.remove(0);
    assert!(!m.apply_changes());
    run(&mut block, m.take_commands());
    assert_eq!(block, vec![Some(0), Some(21), Some(30)]);
    assert_eq!(m.push(7), 0);
    assert_eq!(m.push(8), 3);
    assert_eq!(m.len(), 4);
    assert!(m.apply_changes());
    assert_eq!(m.capacity(), 6);
    run(&mut block, m.take_commands());
    assert_eq!(&block[..4], &[Some(7), Some(21), Some(30), Some(8)]);
}

#[test]
fn mapped_later_write_wins() {
    let mut m: MappedSparse<u32> = MappedSparse::new(vec![1]);
    m.set(0, 2);
    m.set(0, 3);
    m.apply_changes();
    let mut block = Vec::new();
    run(&mut block, m.take_commands());
    assert_eq!(block, vec![Some(3)]);
}

#[test]
fn columnar_growth_moves_following_columns() {
    let mut s: DenseMapped2d<u32> = DenseMapped2d::with_capacities(vec![2, 2]);
    assert_eq!(s.capacity(), 4);
    s.push(0, 1);
    s.push(0, 2);
    s.push(0, 3);
    let (grew, changes) = s.apply_changes();
    assert!(grew);
    assert_eq!(s.column_capacity(0), 4);
    assert_eq!(s.column_capacity(1), 2);
    assert_eq!(s.column_offset(1), 4);
    assert_eq!(s.capacity(), 6);
    assert_eq!(
        changes,
        vec![(1, ColumnChange::Moved { new_offset: 4 }), (0, ColumnChange::Resized { new_size: 3 })]
    );
    let mut block = Vec::new();
    run(&mut block, s.take_commands());
    assert_eq!(&block[..3], &[Some(1), Some(2), Some(3)]);
}

#[test]
fn columnar_apply_twice_is_quiet() {
    let mut s = DenseMapped2d::new(vec![1u32, 2, 3], vec![1, 2]);
    s.push(0, 4);
    s.push(1, 5);
    let (grew, changes) = s.apply_changes();
    assert!(grew);
    assert!(!changes.is_empty());
    let (grew, changes) = s.apply_changes();
    assert!(!grew);
    assert!(changes.is_empty());
}

#[test]
fn columnar_new_packs_initial_data() {
    let mut s = DenseMapped2d::new(vec![1u32, 2, 3, 4, 5], vec![2, 0, 3]);
    assert_eq!(s.columns_len(), 3);
    assert_eq!(s.column_offset(0), 0);
    assert_eq!(s.column_offset(1), 2);
    assert_eq!(s.column_offset(2), 2);
    assert_eq!(s.column_len(2), 3);
    let (grew, changes) = s.apply_changes();
    assert!(!grew);
    assert!(changes.is_empty());
}

#[test]
fn columnar_three_growing_columns_keep_records() {
    let mut s = DenseMapped2d::new(vec![10u32, 11, 20, 30, 31, 40], vec![2, 1, 2, 1]);
    let mut block = Vec::new();
    run(&mut block, s.take_commands());
    s.push(0, 12);
    s.push(1, 21);
    s.push(3, 41);
    s.push(3, 42);
    let (grew, changes) = s.apply_changes();
    assert!(grew);
    // column 0: 2 -> 4, column 1: 1 -> 2, column 2 stays 2, column 3: 1 -> 3
    assert_eq!(s.capacity(), 11);
    assert_eq!(
        changes,
        vec![
            (1, ColumnChange::Moved { new_offset: 4 }),
            (2, ColumnChange::Moved { new_offset: 6 }),
            (3, ColumnChange::Moved { new_offset: 8 }),
            (0, ColumnChange::Resized { new_size: 3 }),
            (1, ColumnChange::Resized { new_size: 2 }),
            (3, ColumnChange::Resized { new_size: 3 }),
        ]
    );
    run(&mut block, s.take_commands());
    assert_eq!(&block[0..3], &[Some(10), Some(11), Some(12)]);
    assert_eq!(&block[4..6], &[Some(20), Some(21)]);
    assert_eq!(&block[6..8], &[Some(30), Some(31)]);
    assert_eq!(block.len(), 11);
    assert_eq!(&block[8..11], &[Some(40), Some(41), Some(42)]);
    assert_eq!(s.column_capacity(3), 3);
}

#[test]
fn columnar_remove_swaps_last_record_in() {
    let mut s = DenseMapped2d::new(vec![1u32, 2, 3, 9], vec![3, 1]);
    let mut block = Vec::new();
    run(&mut block, s.take_commands());
    let extra = s.push(0, 4);
    let first = gpu_storage::columnar::Slot2dId { row_id: 0, dense: gpu_storage::dense::DenseId::from_raw(0) };
    s.remove(first);
    assert_eq!(s.get_index(extra), Some(0));
    let (grew, changes) = s.apply_changes();
    assert!(!grew);
    assert!(changes.is_empty());
    run(&mut block, s.take_commands());
    assert_eq!(&block[..3], &[Some(4), Some(2), Some(3)]);
    assert_eq!(block[3], Some(9));
    s.remove(extra);
    let (_, changes) = s.apply_changes();
    assert_eq!(changes, vec![(0, ColumnChange::Resized { new_size: 2 })]);
    run(&mut block, s.take_commands());
    assert_eq!(&block[..2], &[Some(3), Some(2)]);
}

#[test]
fn columnar_remove_unknown_handle_changes_nothing() {
    let mut s = DenseMapped2d::new(vec![1u32, 2], vec![2]);
    let ghost = gpu_storage::columnar::Slot2dId { row_id: 0, dense: gpu_storage::dense::DenseId::from_raw(5) };
    s.remove(ghost);
    assert_eq!(s.column_len(0), 2);
    let (grew, changes) = s.apply_changes();
    assert!(!grew);
    assert!(changes.is_empty());
}

#[test]
fn columnar_repack_is_one_grow_then_writes() {
    let mut s = DenseMapped2d::new(vec![10u32, 11, 20, 30, 31, 40], vec![2, 1, 2, 1]);
    s.take_commands();
    s.push(0, 12);
    s.push(1, 21);
    s.push(3, 41);
    s.push(3, 42);
    let (grew, _) = s.apply_changes();
    assert!(grew);
    let ops = s.take_commands();
    match &ops[0] {
        DeviceOp::Grow { capacity, copies } => {
            assert_eq!(*capacity, 11);
            let ranges: Vec<(usize, usize, usize)> = copies.iter().map(|c| (c.src, c.dst, c.len)).collect();
            // one copy per growing column (0, 1, 3), then the tail after column 3
            assert_eq!(ranges, vec![(0, 0, 2), (2, 4, 1), (3, 6, 3), (6, 11, 0)]);
        }
        _ => panic!("the first command is not a grow"),
    }
    assert!(ops[1..].iter().all(|op| matches!(op, DeviceOp::Write { .. })));
    assert_eq!(ops.len(), 5);
}

#[test]
fn columnar_quiet_apply_queues_nothing() {
    let mut s = DenseMapped2d::new(vec![1u32, 2, 3], vec![3]);
    s.apply_changes();
    s.take_commands();
    s.apply_changes();
    assert!(s.take_commands().is_empty());
}

#[test]
fn mapped_liveness_and_tombstone() {
    let mut m: MappedSparse<u32> = MappedSparse::new(vec![5, 6]);
    assert!(m.is_live(1));
    m.remove(1);
    assert!(!m.is_live(1));
    assert!(!m.is_live(2));
    m.apply_changes();
    let mut block = Vec::new();
    run(&mut block, m.take_commands());
    assert_eq!(block, vec![Some(5), Some(u32::default())]);
}
