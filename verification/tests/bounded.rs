use rocksq::bounded::PersistentQueueWithCapacity;
use rocksq::err::QueueError;
use rocksq::store::CellMap;

#[test]
fn test_normal_ops() {
    let mut db = PersistentQueueWithCapacity::new_with_ring(CellMap::new(), 4, 4).unwrap();
    db.push(&vec![vec![1, 2, 3]]).unwrap();
    db.push(&vec![vec![4, 5, 6]]).unwrap();
    assert_eq!(db.len(), 2);
    assert_eq!(db.payload_size(), 6);
    assert!(matches!(db.pop(1), Ok(v) if v == vec![vec![1, 2, 3]]));
    assert!(matches!(db.pop(1), Ok(v) if v == vec![vec![4, 5, 6]]));
    assert!(db.is_empty());
    db.push(&vec![vec![1, 2, 3]]).unwrap();
    db.push(&vec![vec![4, 5, 6]]).unwrap();
    db.push(&vec![vec![7, 8, 9]]).unwrap();
    assert_eq!(db.len(), 3);
    assert_eq!(db.read_index(), 2);
    assert_eq!(db.write_index(), 1);
    assert!(matches!(db.pop(1), Ok(v) if v == vec![vec![1, 2, 3]]));
    assert_eq!(db.len(), 2);
    assert_eq!(db.read_index(), 3);
    assert_eq!(db.write_index(), 1);
    assert!(matches!(db.pop(1), Ok(v) if v == vec![vec![4, 5, 6]]));
    assert_eq!(db.len(), 1);
    assert_eq!(db.read_index(), 0);
    assert_eq!(db.write_index(), 1);
    let data = db.pop(1).unwrap();
    assert!(db.is_empty());
    assert_eq!(db.len(), 0);
    assert_eq!(data, vec![vec![7, 8, 9]]);
}

#[test]
fn test_limit_len_ops() {
    let mut db = PersistentQueueWithCapacity::new_with_ring(CellMap::new(), 2, 4).unwrap();
    db.push(&vec![vec![1, 2, 3]]).unwrap();
    db.push(&vec![vec![4, 5, 6]]).unwrap();
    assert!(matches!(db.push(&vec![vec![1, 2, 3]]), Err(_)));
    assert_eq!(db.payload_size(), 6);
}

#[test]
fn test_read_with_close() {
    let store = CellMap::new();
    let store = {
        let mut db = PersistentQueueWithCapacity::new_with_ring(store, 4, 4).unwrap();
        db.push(&vec![vec![1, 2, 3]]).unwrap();
        db.push(&vec![vec![4, 5, 6]]).unwrap();
        db.push(&vec![vec![7, 8, 9]]).unwrap();
        db.close()
    };

    let store = {
        let mut db = PersistentQueueWithCapacity::new_with_ring(store, 4, 4).unwrap();
        assert_eq!(db.payload_size(), 9);
        let res = db.pop(1).unwrap();
        assert_eq!(res, vec![vec![1, 2, 3]]);
        assert_eq!(db.payload_size(), 6);
        db.close()
    };

    let store = {
        let mut db = PersistentQueueWithCapacity::new_with_ring(store, 4, 4).unwrap();
        let res = db.pop(1).unwrap();
        assert_eq!(res, vec![vec![4, 5, 6]]);
        let res = db.pop(1).unwrap();
        assert_eq!(res, vec![vec![7, 8, 9]]);
        db.close()
    };

    let mut db = PersistentQueueWithCapacity::new_with_ring(store, 4, 4).unwrap();
    let res = db.pop(1).unwrap();
    assert!(res.is_empty());
}

#[test]
fn push_pop_many() {
    let mut queue = PersistentQueueWithCapacity::new_with_ring(CellMap::new(), 3, 4).unwrap();
    queue
        .push(&vec![vec![1u8, 2u8, 3u8], vec![4u8, 5u8, 6u8], vec![7u8, 8u8, 9u8]])
        .unwrap();

    let res = queue.pop(2).unwrap();

    assert_eq!(res, vec![vec![1u8, 2u8, 3u8], vec![4u8, 5u8, 6u8]]);
    let res = queue.pop(1).unwrap();
    assert_eq!(res, vec![vec![7u8, 8u8, 9u8]]);

    let res = queue.pop(1).unwrap();
    assert!(res.is_empty());
}

#[test]
fn push_pop_max_elements() {
    let mut queue = PersistentQueueWithCapacity::new_with_ring(CellMap::new(), 4, 4).unwrap();

    let values = vec![b"a".to_vec(); 4];
    queue.push(&values).unwrap();

    assert_eq!(queue.read_index(), 0);
    assert_eq!(queue.write_index(), 0);
    assert!(!queue.is_empty());
    assert_eq!(queue.len(), 4);

    let res = queue.pop(4).unwrap();

    assert_eq!(res, values);
    assert_eq!(queue.read_index(), 0);
    assert_eq!(queue.write_index(), 0);
    assert!(queue.is_empty());
    assert_eq!(queue.len(), 0);
}

#[test]
fn new_invalid_max_elements() {
    let result = PersistentQueueWithCapacity::new_with_ring(CellMap::new(), 5, 4);
    assert!(matches!(result, Err(QueueError::InvalidConfig)));
    let result = PersistentQueueWithCapacity::new_with_ring(CellMap::new(), 4, 4);
    assert!(result.is_ok());
}

#[test]
fn pop_zero_is_empty_and_harmless() {
    let mut queue = PersistentQueueWithCapacity::new_with_ring(CellMap::new(), 4, 4).unwrap();
    queue.push(&vec![vec![9u8]]).unwrap();
    let res = queue.pop(0).unwrap();
    assert!(res.is_empty());
    assert_eq!(queue.len(), 1);
    assert_eq!(queue.payload_size(), 1);
}

#[test]
fn push_empty_batch_is_noop() {
    let mut queue = PersistentQueueWithCapacity::new_with_ring(CellMap::new(), 2, 4).unwrap();
    queue.push(&Vec::new()).unwrap();
    assert!(queue.is_empty());
    assert_eq!(queue.len(), 0);
}

#[test]
fn full_push_rejection_changes_nothing() {
    let mut queue = PersistentQueueWithCapacity::new_with_ring(CellMap::new(), 2, 4).unwrap();
    queue.push(&vec![vec![1u8], vec![2u8]]).unwrap();
    let before_len = queue.len();
    let before_payload = queue.payload_size();
    let before_read = queue.read_index();
    let before_write = queue.write_index();
    let res = queue.push(&vec![vec![3u8]]);
    assert!(matches!(res, Err(QueueError::QueueFull)));
    assert_eq!(queue.len(), before_len);
    assert_eq!(queue.payload_size(), before_payload);
    assert_eq!(queue.read_index(), before_read);
    assert_eq!(queue.write_index(), before_write);
}

#[test]
fn payload_size_tracks_live_bytes() {
    let mut queue = PersistentQueueWithCapacity::new_with_ring(CellMap::new(), 3, 4).unwrap();
    queue.push(&vec![vec![1, 2], vec![3, 4, 5]]).unwrap();
    assert_eq!(queue.payload_size(), 5);
    let _ = queue.pop(1).unwrap();
    assert_eq!(queue.payload_size(), 3);
    let _ = queue.pop(1).unwrap();
    assert_eq!(queue.payload_size(), 0);
}

#[test]
fn full_ring_queue_on_default_ring() {
    let mut queue = PersistentQueueWithCapacity::new(CellMap::new(), 100).unwrap();
    queue.push(&vec![b"x".to_vec(), b"y".to_vec()]).unwrap();
    assert_eq!(queue.len(), 2);
    let res = queue.pop(10).unwrap();
    assert_eq!(res, vec![b"x".to_vec(), b"y".to_vec()]);
    assert!(queue.is_empty());
}

#[test]
fn fifo_wrap_scenario() {
    let mut queue = PersistentQueueWithCapacity::new_with_ring(CellMap::new(), 3, 4).unwrap();
    queue.push(&vec![vec![1, 2, 3]]).unwrap();
    queue.push(&vec![vec![4, 5, 6]]).unwrap();
    let res = queue.pop(2).unwrap();
    assert_eq!(res, vec![vec![1, 2, 3], vec![4, 5, 6]]);
    queue.push(&vec![vec![7, 8, 9]]).unwrap();
    let res = queue.pop(3).unwrap();
    assert_eq!(res, vec![vec![7, 8, 9]]);
    assert_eq!(queue.read_index(), queue.write_index());
    assert!(queue.is_empty());
    assert_eq!(queue.len(), 0);
}
