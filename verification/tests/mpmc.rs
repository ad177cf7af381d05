use rocksq::clock::current_timestamp;
use rocksq::mpmc::MpmcQueue;
use rocksq::mpmc::MpmcStore;
use rocksq::mpmc::StartPosition;
use rocksq::reader::Reader;

fn expire_all(queue: &mut MpmcQueue, ring: u64) {
    for i in 0..ring {
        queue.expire_entry(i);
    }
}

fn reader(queue: &MpmcQueue, label: &str) -> Reader {
    queue.reader_for(label).unwrap()
}

#[test]
pub fn test_new_empty() {
    let now = current_timestamp();

    let queue = MpmcQueue::new_with_ring(MpmcStore::new(), 4).unwrap();

    assert_eq!(queue.start_index(), 0);
    assert_eq!(queue.write_index(), 0);
    assert!(queue.write_timestamp() > now);
    assert!(queue.get_labels().is_empty());
    assert!(queue.is_empty());
    assert_eq!(queue.len(), 0);
}

#[test]
pub fn test_new_non_empty() {
    let values = vec![b"a".to_vec(), b"b".to_vec()];
    let label = "label";
    let (store, write_timestamp) = {
        let mut queue = MpmcQueue::new_with_ring(MpmcStore::new(), 8).unwrap();

        queue.add(&values).unwrap();
        queue.next(1, label, StartPosition::Oldest).unwrap();

        expire_all(&mut queue, 8);

        queue.add(&values).unwrap();
        queue.next(1, label, StartPosition::Oldest).unwrap();

        assert_eq!(queue.start_index(), 2);
        assert_eq!(queue.write_index(), 4);
        assert_eq!(reader(&queue, label), Reader::new(3, None, false));
        assert!(!queue.is_empty());
        let ts = queue.write_timestamp();
        (queue.close(), ts)
    };

    let queue = MpmcQueue::new_with_ring(store, 8).unwrap();

    assert_eq!(queue.start_index(), 2);
    assert_eq!(queue.write_index(), 4);
    assert_eq!(queue.write_timestamp(), write_timestamp);
    assert_eq!(reader(&queue, label), Reader::new(3, None, false));
    assert!(!queue.is_empty());
}

#[test]
pub fn test_add() {
    let mut queue = MpmcQueue::new_with_ring(MpmcStore::new(), 4).unwrap();
    queue.add(&vec![b"a".to_vec()]).unwrap();

    assert_eq!(queue.start_index(), 0);
    assert_eq!(queue.write_index(), 1);
    assert!(queue.get_labels().is_empty());
    assert!(!queue.is_empty());
    assert_eq!(queue.len(), 1);
}

#[test]
pub fn test_add_too_big_batch() {
    let mut queue = MpmcQueue::new_with_ring(MpmcStore::new(), 4).unwrap();
    let values = vec![b"a".to_vec(); 5];
    let result = queue.add(&values);

    assert!(result.is_err());
    assert_eq!(queue.start_index(), 0);
    assert_eq!(queue.write_index(), 0);
    assert!(queue.get_labels().is_empty());
    assert!(queue.is_empty());
    assert_eq!(queue.len(), 0);
}

#[test]
pub fn test_add_full_queue() {
    let mut queue = MpmcQueue::new_with_ring(MpmcStore::new(), 4).unwrap();
    let values = vec![b"a".to_vec(); 4];
    queue.add(&values).unwrap();

    assert_eq!(queue.start_index(), 0);
    assert_eq!(queue.write_index(), 0);
    assert!(queue.get_labels().is_empty());
    assert!(!queue.is_empty());
    assert_eq!(queue.len(), 4);

    let result = queue.add(&vec![b"b".to_vec()]);

    assert!(result.is_err());

    assert_eq!(queue.start_index(), 0);
    assert_eq!(queue.write_index(), 0);
    assert!(queue.get_labels().is_empty());
    assert!(!queue.is_empty());
    assert_eq!(queue.len(), 4);
}

#[test]
pub fn test_next_new_label_oldest_empty_queue() {
    let label = "label";
    let mut queue = MpmcQueue::new_with_ring(MpmcStore::new(), 4).unwrap();
    let result = queue.next(100, label, StartPosition::Oldest).unwrap();

    assert!(result.0.is_empty());
    assert!(!result.1);
    assert_eq!(
        reader(&queue, label),
        Reader::new(0, Some(queue.write_timestamp()), false)
    );
}

#[test]
pub fn test_next_new_label_newest_empty_queue() {
    let label = "label";
    let mut queue = MpmcQueue::new_with_ring(MpmcStore::new(), 4).unwrap();
    let result = queue.next(100, label, StartPosition::Newest).unwrap();

    assert!(result.0.is_empty());
    assert!(!result.1);
    assert_eq!(
        reader(&queue, label),
        Reader::new(0, Some(queue.write_timestamp()), false)
    );
}

#[test]
pub fn test_next_new_label_oldest_non_empty_queue() {
    let label = "label";
    let mut queue = MpmcQueue::new_with_ring(MpmcStore::new(), 4).unwrap();
    queue
        .add(&vec![b"a".to_vec(), b"b".to_vec(), b"c".to_vec()])
        .unwrap();

    let result = queue.next(2, label, StartPosition::Oldest).unwrap();

    assert_eq!(result.0, vec![b"a".to_vec(), b"b".to_vec()]);
    assert!(!result.1);
    assert_eq!(reader(&queue, label), Reader::new(2, None, false));

    let result = queue.next(2, label, StartPosition::Oldest).unwrap();

    assert_eq!(result.0, vec![b"c".to_vec()]);
    assert!(!result.1);
    assert_eq!(
        reader(&queue, label),
        Reader::new(3, Some(queue.write_timestamp()), false)
    );
}

#[test]
pub fn test_next_new_label_newest_non_empty_queue() {
    let label = "label";
    let mut queue = MpmcQueue::new_with_ring(MpmcStore::new(), 4).unwrap();
    queue
        .add(&vec![b"a".to_vec(), b"b".to_vec(), b"c".to_vec()])
        .unwrap();

    let result = queue.next(2, label, StartPosition::Newest).unwrap();

    assert_eq!(result.0, vec![b"c".to_vec()]);
    assert!(!result.1);
    assert_eq!(
        reader(&queue, label),
        Reader::new(3, Some(queue.write_timestamp()), false)
    );

    let result = queue.next(2, label, StartPosition::Newest).unwrap();

    assert!(result.0.is_empty());
    assert!(!result.1);
    assert_eq!(
        reader(&queue, label),
        Reader::new(3, Some(queue.write_timestamp()), false)
    );
}

#[test]
pub fn test_next_new_label_newest_full_queue() {
    let label = "label";
    let last_value = b"last".to_vec();
    let mut queue = MpmcQueue::new_with_ring(MpmcStore::new(), 4).unwrap();
    queue.add(&vec![b"value".to_vec(); 3]).unwrap();
    queue.add(&vec![last_value.clone()]).unwrap();

    let result = queue.next(1, label, StartPosition::Newest).unwrap();

    assert_eq!(result.0, vec![last_value]);
    assert!(!result.1);
    assert_eq!(
        reader(&queue, label),
        Reader::new(0, Some(queue.write_timestamp()), false)
    );

    let result = queue.next(1, label, StartPosition::Newest).unwrap();

    assert!(result.0.is_empty());
    assert!(!result.1);
    assert_eq!(
        reader(&queue, label),
        Reader::new(0, Some(queue.write_timestamp()), false)
    );
}

#[test]
pub fn test_next_new_label_oldest_all_expired() {
    let label_one = "label1";
    let label_two = "label2";
    let mut queue = MpmcQueue::new_with_ring(MpmcStore::new(), 4).unwrap();
    queue.add(&vec![b"a".to_vec(), b"b".to_vec()]).unwrap();

    expire_all(&mut queue, 4);

    let result = queue.next(2, label_one, StartPosition::Oldest).unwrap();

    assert!(result.0.is_empty());
    assert!(!result.1);
    assert_eq!(queue.start_index(), 2);
    assert_eq!(queue.write_index(), 2);
    assert_eq!(
        reader(&queue, label_one),
        Reader::new(2, Some(queue.write_timestamp()), false)
    );
    assert!(queue.is_empty());
    assert_eq!(queue.len(), 0);

    let write_timestamp = queue.write_timestamp();

    queue.add(&vec![b"a".to_vec(); 4]).unwrap();

    assert_eq!(queue.start_index(), 2);
    assert_eq!(queue.write_index(), 2);
    assert_eq!(
        reader(&queue, label_one),
        Reader::new(2, Some(write_timestamp), false)
    );
    assert!(!queue.is_empty());
    assert_eq!(queue.len(), 4);
    assert!(queue.write_timestamp() > write_timestamp);

    // expire all
    expire_all(&mut queue, 4);

    let result = queue.next(1, label_two, StartPosition::Oldest).unwrap();

    assert!(result.0.is_empty());
    assert!(!result.1);
    assert_eq!(queue.start_index(), 2);
    assert_eq!(queue.write_index(), 2);
    assert_eq!(
        reader(&queue, label_one),
        Reader::new(2, Some(queue.write_timestamp()), true)
    );
    assert_eq!(
        reader(&queue, label_two),
        Reader::new(2, Some(queue.write_timestamp()), false)
    );
    assert!(queue.is_empty());
    assert_eq!(queue.len(), 0);

    let result = queue.next(1, label_one, StartPosition::Oldest).unwrap();

    assert!(result.0.is_empty());
    assert!(result.1);
    assert_eq!(
        reader(&queue, label_one),
        Reader::new(2, Some(queue.write_timestamp()), false)
    );

    let result = queue.next(1, label_one, StartPosition::Oldest).unwrap();

    assert!(result.0.is_empty());
    assert!(!result.1);
    assert_eq!(
        reader(&queue, label_one),
        Reader::new(2, Some(queue.write_timestamp()), false)
    );
}

#[test]
pub fn test_next_new_label_newest_all_expired() {
    let label_one = "label1";
    let label_two = "label2";
    let mut queue = MpmcQueue::new_with_ring(MpmcStore::new(), 4).unwrap();
    queue.add(&vec![b"a".to_vec(), b"b".to_vec()]).unwrap();

    expire_all(&mut queue, 4);

    let result = queue.next(2, label_one, StartPosition::Newest).unwrap();

    assert!(result.0.is_empty());
    assert!(!result.1);
    assert_eq!(queue.start_index(), 2);
    assert_eq!(queue.write_index(), 2);
    assert_eq!(
        reader(&queue, label_one),
        Reader::new(2, Some(queue.write_timestamp()), false)
    );
    assert!(queue.is_empty());
    assert_eq!(queue.len(), 0);

    let write_timestamp = queue.write_timestamp();

    queue.add(&vec![b"a".to_vec(); 4]).unwrap();

    assert_eq!(queue.start_index(), 2);
    assert_eq!(queue.write_index(), 2);
    assert_eq!(
        reader(&queue, label_one),
        Reader::new(2, Some(write_timestamp), false)
    );
    assert!(!queue.is_empty());
    assert_eq!(queue.len(), 4);
    assert!(queue.write_timestamp() > write_timestamp);

    // expire all
    expire_all(&mut queue, 4);

    let result = queue.next(1, label_two, StartPosition::Newest).unwrap();

    assert!(result.0.is_empty());
    assert!(!result.1);
    assert_eq!(queue.start_index(), 2);
    assert_eq!(queue.write_index(), 2);
    assert_eq!(
        reader(&queue, label_one),
        Reader::new(2, Some(queue.write_timestamp()), true)
    );
    assert_eq!(
        reader(&queue, label_two),
        Reader::new(2, Some(queue.write_timestamp()), false)
    );
    assert!(queue.is_empty());
    assert_eq!(queue.len(), 0);

    let result = queue.next(1, label_one, StartPosition::Oldest).unwrap();

    assert!(result.0.is_empty());
    assert!(result.1);
    assert_eq!(
        reader(&queue, label_one),
        Reader::new(2, Some(queue.write_timestamp()), false)
    );

    let result = queue.next(1, label_one, StartPosition::Oldest).unwrap();

    assert!(result.0.is_empty());
    assert!(!result.1);
    assert_eq!(
        reader(&queue, label_one),
        Reader::new(2, Some(queue.write_timestamp()), false)
    );
}

#[test]
pub fn test_next_new_label_oldest_some_expired() {
    let label = "label";
    let value = b"c".to_vec();
    let mut queue = MpmcQueue::new_with_ring(MpmcStore::new(), 4).unwrap();
    queue.add(&vec![b"a".to_vec()]).unwrap();
    queue.add(&vec![value.clone(), b"b".to_vec()]).unwrap();

    // the oldest entry ages out on its own
    queue.expire_entry(0);

    let result = queue.next(1, label, StartPosition::Oldest).unwrap();

    assert_eq!(result.0, vec![value]);
    assert!(!result.1);
    assert_eq!(queue.start_index(), 1);
    assert_eq!(queue.write_index(), 3);
    assert_eq!(reader(&queue, label), Reader::new(2, None, false));
    assert!(!queue.is_empty());
    assert_eq!(queue.len(), 2);
}

#[test]
pub fn test_next_new_label_newest_some_expired() {
    let label = "label";
    let value = b"c".to_vec();
    let mut queue = MpmcQueue::new_with_ring(MpmcStore::new(), 4).unwrap();
    queue.add(&vec![b"a".to_vec()]).unwrap();
    queue.add(&vec![b"b".to_vec(), value.clone()]).unwrap();

    // the oldest entry ages out on its own
    queue.expire_entry(0);

    let result = queue.next(1, label, StartPosition::Newest).unwrap();

    assert_eq!(result.0, vec![value]);
    assert!(!result.1);
    assert_eq!(queue.start_index(), 1);
    assert_eq!(queue.write_index(), 3);
    assert_eq!(
        reader(&queue, label),
        Reader::new(3, Some(queue.write_timestamp()), false)
    );
    assert!(!queue.is_empty());
    assert_eq!(queue.len(), 2);
}

#[test]
pub fn test_next_after_ttl_start_index_less_write_index() {
    let label_one = "label1";
    let label_two = "label2";
    let label_three = "label3";
    let label_four = "label4";
    let label_five = "label5";
    let value_one = b"a".to_vec();
    let value_two = b"b".to_vec();
    let value_three = b"c".to_vec();
    let value_four = b"d".to_vec();
    let start_position = StartPosition::Oldest;

    let mut queue = MpmcQueue::new_with_ring(MpmcStore::new(), 8).unwrap();
    queue.add(&vec![value_one.clone(), value_two.clone()]).unwrap();
    queue.add(&vec![value_three.clone(), value_four.clone()]).unwrap();

    // read < write, start > read
    let result = queue.next(1, label_one, start_position).unwrap();
    assert_eq!(result.0, vec![value_one.clone()]);
    assert!(!result.1);
    // read < write, start = read
    let result = queue.next(2, label_two, start_position).unwrap();
    assert_eq!(result.0, vec![value_one.clone(), value_two.clone()]);
    assert!(!result.1);
    // read < write, start < read
    let result = queue.next(3, label_three, start_position).unwrap();
    assert_eq!(
        result.0,
        vec![value_one.clone(), value_two.clone(), value_three.clone()]
    );
    assert!(!result.1);
    // read = write
    let result = queue.next(4, label_four, start_position).unwrap();
    assert_eq!(
        result.0,
        vec![
            value_one.clone(),
            value_two.clone(),
            value_three.clone(),
            value_four.clone()
        ]
    );
    assert!(!result.1);

    assert_eq!(queue.start_index(), 0);
    assert_eq!(queue.write_index(), 4);
    assert_eq!(reader(&queue, label_one), Reader::new(1, None, false));
    assert_eq!(reader(&queue, label_two), Reader::new(2, None, false));
    assert_eq!(reader(&queue, label_three), Reader::new(3, None, false));
    assert_eq!(
        reader(&queue, label_four),
        Reader::new(4, Some(queue.write_timestamp()), false)
    );
    assert!(!queue.is_empty());
    assert_eq!(queue.len(), 4);

    // the two oldest entries age out
    queue.expire_entry(0);
    queue.expire_entry(1);

    let result = queue.next(1, label_five, start_position).unwrap();
    assert_eq!(result.0, vec![value_three.clone()]);
    assert!(!result.1);

    assert_eq!(queue.start_index(), 2);
    assert_eq!(queue.write_index(), 4);
    assert_eq!(reader(&queue, label_one), Reader::new(2, None, true));
    assert_eq!(reader(&queue, label_two), Reader::new(2, None, false));
    assert_eq!(reader(&queue, label_three), Reader::new(3, None, false));
    assert_eq!(
        reader(&queue, label_four),
        Reader::new(4, Some(queue.write_timestamp()), false)
    );
    assert_eq!(reader(&queue, label_five), Reader::new(3, None, false));
    assert!(!queue.is_empty());
    assert_eq!(queue.len(), 2);

    // the rest ages out
    queue.expire_entry(2);
    queue.expire_entry(3);

    let result = queue.next(1, label_five, start_position).unwrap();
    assert!(result.0.is_empty());
    assert!(result.1);

    assert_eq!(queue.start_index(), 4);
    assert_eq!(queue.write_index(), 4);
    assert_eq!(
        reader(&queue, label_one),
        Reader::new(4, Some(queue.write_timestamp()), true)
    );
    assert_eq!(
        reader(&queue, label_two),
        Reader::new(4, Some(queue.write_timestamp()), true)
    );
    assert_eq!(
        reader(&queue, label_three),
        Reader::new(4, Some(queue.write_timestamp()), true)
    );
    assert_eq!(
        reader(&queue, label_four),
        Reader::new(4, Some(queue.write_timestamp()), false)
    );
    assert_eq!(
        reader(&queue, label_five),
        Reader::new(4, Some(queue.write_timestamp()), false)
    );
    assert!(queue.is_empty());
    assert_eq!(queue.len(), 0);
}

#[test]
pub fn mpmc_wraparound_after_expiry() {
    let label = "label";
    let mut queue = MpmcQueue::new_with_ring(MpmcStore::new(), 4).unwrap();
    queue.add(&vec![b"a".to_vec(), b"b".to_vec()]).unwrap();

    expire_all(&mut queue, 4);

    let result = queue.next(1, label, StartPosition::Oldest).unwrap();
    assert!(result.0.is_empty());
    assert!(!result.1);
    assert_eq!(queue.start_index(), 2);
    assert_eq!(queue.write_index(), 2);

    // the new batch wraps over the end of the ring
    queue
        .add(&vec![b"c".to_vec(), b"d".to_vec(), b"e".to_vec(), b"f".to_vec()])
        .unwrap();
    assert_eq!(queue.start_index(), 2);
    assert_eq!(queue.write_index(), 2);
    assert_eq!(queue.len(), 4);

    let result = queue.next(4, label, StartPosition::Oldest).unwrap();
    assert_eq!(
        result.0,
        vec![b"c".to_vec(), b"d".to_vec(), b"e".to_vec(), b"f".to_vec()]
    );
    assert!(!result.1);
    assert_eq!(
        reader(&queue, label),
        Reader::new(2, Some(queue.write_timestamp()), false)
    );
}

#[test]
pub fn test_next_during_expiration_some_elements() {
    let label = "label";
    let value_three = b"c".to_vec();
    let value_four = b"d".to_vec();

    let mut queue = MpmcQueue::new_with_ring(MpmcStore::new(), 8).unwrap();
    queue
        .add(&vec![b"a".to_vec(), b"b".to_vec(), value_three.clone(), value_four.clone()])
        .unwrap();

    // emulate that the second value expires right after reading the first value
    queue.expire_entry(1);

    let result = queue.next(2, label, StartPosition::Oldest).unwrap();

    assert_eq!(result.0, vec![value_three, value_four]);
    assert!(result.1);
    assert_eq!(queue.start_index(), 0);
    assert_eq!(queue.write_index(), 4);
    assert_eq!(
        reader(&queue, label),
        Reader::new(4, Some(queue.write_timestamp()), false)
    );
    assert!(!queue.is_empty());
    assert_eq!(queue.len(), 4);
}

#[test]
pub fn test_next_during_expiration_all_elements() {
    let label = "label";

    let mut queue = MpmcQueue::new_with_ring(MpmcStore::new(), 8).unwrap();
    queue
        .add(&vec![b"a".to_vec(), b"b".to_vec(), b"c".to_vec(), b"d".to_vec()])
        .unwrap();

    // emulate that all later values expire right after reading the first value
    queue.expire_entry(1);
    queue.expire_entry(2);
    queue.expire_entry(3);

    let result = queue.next(4, label, StartPosition::Oldest).unwrap();

    assert!(result.0.is_empty());
    assert!(result.1);
    assert_eq!(queue.start_index(), 0);
    assert_eq!(queue.write_index(), 4);
    assert_eq!(
        reader(&queue, label),
        Reader::new(4, Some(queue.write_timestamp()), false)
    );
    assert!(!queue.is_empty());
    assert_eq!(queue.len(), 4);
}

#[test]
pub fn test_get_labels() {
    let label_one = "label1";
    let label_two = "label2";
    let mut queue = MpmcQueue::new_with_ring(MpmcStore::new(), 4).unwrap();
    let result = queue.get_labels();

    assert!(result.is_empty());

    queue.next(1, label_one, StartPosition::Oldest).unwrap();
    let result = queue.get_labels();

    assert_eq!(result, vec![label_one.to_string()]);

    queue.next(1, label_two, StartPosition::Oldest).unwrap();
    let result = queue.get_labels();

    assert_eq!(result.len(), 2);
    assert!(result.contains(&label_one.to_string()));
    assert!(result.contains(&label_two.to_string()));
}

#[test]
pub fn test_remove_label() {
    let label = "label";
    let mut queue = MpmcQueue::new_with_ring(MpmcStore::new(), 4).unwrap();
    let result = queue.remove_label(label).unwrap();

    assert!(!result);
    assert!(queue.get_labels().is_empty());

    queue.next(1, label, StartPosition::Oldest).unwrap();
    assert_eq!(
        reader(&queue, label),
        Reader::new(0, Some(queue.write_timestamp()), false)
    );

    let result = queue.remove_label(label).unwrap();

    assert!(result);
    assert!(queue.get_labels().is_empty());
}

#[test]
pub fn next_zero_budget_does_not_advance() {
    let label = "label";
    let mut queue = MpmcQueue::new_with_ring(MpmcStore::new(), 4).unwrap();
    queue.add(&vec![b"a".to_vec(), b"b".to_vec()]).unwrap();
    queue.next(1, label, StartPosition::Oldest).unwrap();
    assert_eq!(reader(&queue, label), Reader::new(1, None, false));

    let result = queue.next(0, label, StartPosition::Oldest).unwrap();
    assert!(result.0.is_empty());
    assert!(!result.1);
    assert_eq!(reader(&queue, label), Reader::new(1, None, false));
}

#[test]
pub fn removed_label_reads_as_new() {
    let label = "label";
    let mut queue = MpmcQueue::new_with_ring(MpmcStore::new(), 4).unwrap();
    queue.add(&vec![b"a".to_vec(), b"b".to_vec()]).unwrap();
    let result = queue.next(2, label, StartPosition::Oldest).unwrap();
    assert_eq!(result.0, vec![b"a".to_vec(), b"b".to_vec()]);

    assert!(queue.remove_label(label).unwrap());

    // the label starts over from the oldest live entry
    let result = queue.next(2, label, StartPosition::Oldest).unwrap();
    assert_eq!(result.0, vec![b"a".to_vec(), b"b".to_vec()]);
    assert!(!result.1);
}

#[test]
pub fn reads_do_not_remove_entries() {
    let mut queue = MpmcQueue::new_with_ring(MpmcStore::new(), 4).unwrap();
    queue.add(&vec![b"a".to_vec()]).unwrap();
    let r1 = queue.next(1, "one", StartPosition::Oldest).unwrap();
    let r2 = queue.next(1, "two", StartPosition::Oldest).unwrap();
    assert_eq!(r1.0, vec![b"a".to_vec()]);
    assert_eq!(r2.0, vec![b"a".to_vec()]);
    assert_eq!(queue.len(), 1);
}

#[test]
pub fn reader_adjustment_across_wrap() {
    let mut queue = MpmcQueue::new_with_ring(MpmcStore::new(), 4).unwrap();
    queue.add(&vec![b"a".to_vec(), b"b".to_vec()]).unwrap();
    expire_all(&mut queue, 4);
    queue.next(1, "parked", StartPosition::Oldest).unwrap();
    assert_eq!(queue.start_index(), 2);
    assert_eq!(queue.write_index(), 2);

    // the new batch fills the whole ring: keys 2, 3, 0, 1
    queue
        .add(&vec![b"c".to_vec(), b"d".to_vec(), b"e".to_vec(), b"f".to_vec()])
        .unwrap();

    // three readers at different points of the wrapped arc
    let r1 = queue.next(1, "one", StartPosition::Oldest).unwrap();
    assert_eq!(r1.0, vec![b"c".to_vec()]); // cursor 3, behind the wrap
    let r2 = queue.next(3, "two", StartPosition::Oldest).unwrap();
    assert_eq!(r2.0, vec![b"c".to_vec(), b"d".to_vec(), b"e".to_vec()]); // cursor 1
    let r3 = queue.next(4, "three", StartPosition::Oldest).unwrap();
    assert_eq!(r3.0.len(), 4); // cursor 2, at the write head

    // the two oldest entries age out; the minimum live key wraps to 0
    queue.expire_entry(2);
    queue.expire_entry(3);

    let r4 = queue.next(1, "four", StartPosition::Oldest).unwrap();
    assert_eq!(r4.0, vec![b"e".to_vec()]);
    assert_eq!(queue.start_index(), 0);
    assert_eq!(queue.write_index(), 2);

    // behind the wrap and swallowed: jumps to the new start, flagged
    assert_eq!(reader(&queue, "one"), Reader::new(0, None, true));
    // before the write head and still live: stays put
    assert_eq!(reader(&queue, "two"), Reader::new(1, None, false));
    // at the write head: stays put
    assert_eq!(
        reader(&queue, "three"),
        Reader::new(2, Some(queue.write_timestamp()), false)
    );
}
