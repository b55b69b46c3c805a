use gpu_storage::dense::{DenseArrayOp, DenseId, DenseIdAllocator};
use gpu_storage::sparse::SparseIdAllocator;

#[test]
fn sparse_allocate_reuses_freed_ids_oldest_first() {
    let mut ids = SparseIdAllocator::new_packed(0);
    assert_eq!(ids.allocate(), 0);
    assert_eq!(ids.allocate(), 1);
    assert_eq!(ids.allocate(), 2);
    ids.free(1);
    ids.free(0);
    assert_eq!(ids.allocate(), 1);
    assert_eq!(ids.allocate(), 0);
    assert_eq!(ids.allocate(), 3);
    assert_eq!(ids.len(), 4);
}

#[test]
fn sparse_live_ids_are_unique() {
    let mut ids = SparseIdAllocator::new_packed(3);
    let mut live: Vec<u32> = vec![0, 1, 2];
    for round in 0..20u32 {
        if round % 3 == 2 {
            let id = live.remove((round as usize) % live.len());
            ids.free(id);
        } else {
            let id = ids.allocate();
            assert!(!live.contains(&id));
            live.push(id);
        }
    }
    assert!(ids.len() as usize >= live.len());
}

#[test]
fn sparse_len_counts_freed_slots() {
    let mut ids = SparseIdAllocator::new_packed(5);
    assert_eq!(ids.allocate(), 5);
    ids.free(2);
    assert_eq!(ids.len(), 6);
}

#[test]
fn dense_free_middle_swaps_in_last() {
    let mut ids = DenseIdAllocator::new_packed(0);
    let a = ids.allocate();
    let b = ids.allocate();
    let c = ids.allocate();
    assert_eq!(ids.get_index(a), Some(0));
    assert_eq!(ids.get_index(b), Some(1));
    assert_eq!(ids.get_index(c), Some(2));
    assert_eq!(ids.free(b), Some(DenseArrayOp::SwapRemove { index: 1, last: 2 }));
    assert_eq!(ids.get_index(c), Some(1));
    assert_eq!(ids.get_index(a), Some(0));
    assert_eq!(ids.get_index(b), None);
    assert_eq!(ids.len(), 2);
}

#[test]
fn dense_free_last_moves_nothing() {
    let mut ids = DenseIdAllocator::new_packed(2);
    assert_eq!(ids.free(DenseId::from_raw(1)), Some(DenseArrayOp::RemoveLast));
    assert_eq!(ids.len(), 1);
}

#[test]
fn dense_free_unknown_handle_is_none() {
    let mut ids = DenseIdAllocator::new_packed(2);
    assert_eq!(ids.free(DenseId::from_raw(7)), None);
    let a = ids.allocate();
    assert_eq!(a.raw(), 2);
    assert_eq!(ids.free(a), Some(DenseArrayOp::RemoveLast));
    assert_eq!(ids.free(a), None);
    assert_eq!(ids.len(), 2);
}

#[test]
fn dense_handles_are_never_reused() {
    let mut ids = DenseIdAllocator::new_packed(0);
    let a = ids.allocate();
    ids.free(a);
    let b = ids.allocate();
    assert_ne!(a, b);
    assert_eq!(b.raw(), 1);
}

#[test]
fn dense_new_packed_maps_handles_in_order() {
    let ids = DenseIdAllocator::new_packed(4);
    for i in 0..4u32 {
        assert_eq!(ids.get_index(DenseId::from_raw(i)), Some(i));
    }
    let order: Vec<u32> = ids.iter().iter().map(|h| h.raw()).collect();
    assert_eq!(order, vec![0, 1, 2, 3]);
}

#[test]
fn dense_indices_stay_contiguous() {
    let mut ids = DenseIdAllocator::new_packed(3);
    let mut live: Vec<DenseId> = (0..3).map(DenseId::from_raw).collect();
    for round in 0..30usize {
        if round % 4 == 3 && !live.is_empty() {
            let h = live.remove((round * 7) % live.len());
            assert!(ids.free(h).is_some());
        } else {
            live.push(ids.allocate());
        }
        let mut seen: Vec<u32> = live.iter().map(|h| ids.get_index(*h).unwrap()).collect();
        seen.sort();
        let expected: Vec<u32> = (0..ids.len() as u32).collect();
        assert_eq!(seen, expected);
        assert_eq!(ids.len(), live.len());
    }
}

#[test]
fn dense_swap_remove_keeps_other_records() {
    let mut ids = DenseIdAllocator::new_packed(0);
    let handles: Vec<DenseId> = (0..5).map(|_| ids.allocate()).collect();
    // each handle's record is ten times its raw value
    let mut arr: Vec<u32> = handles.iter().map(|h| h.raw() * 10).collect();
    for &victim in &[handles[1], handles[4], handles[0]] {
        match ids.free(victim).unwrap() {
            DenseArrayOp::SwapRemove { index, last } => {
                arr.swap(index as usize, last as usize);
                arr.pop();
            }
            DenseArrayOp::RemoveLast => {
                arr.pop();
            }
        }
        assert_eq!(arr.len(), ids.len());
        for h in ids.iter() {
            let i = ids.get_index(*h).unwrap() as usize;
            assert_eq!(arr[i], h.raw() * 10);
        }
    }
}

#[test]
fn dense_id_equality_follows_raw_value() {
    assert_eq!(DenseId::from_raw(4), DenseId::from_raw(4));
    assert_ne!(DenseId::from_raw(4), DenseId::from_raw(5));
    assert_eq!(DenseId::from_raw(9).raw(), 9);
}
