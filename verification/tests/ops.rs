use rocksq::bounded::PersistentQueueWithCapacity;
use rocksq::codec::index_to_key;
use rocksq::codec::key_to_index;
use rocksq::codec::u64_from_byte_vec;
use rocksq::err::QueueError;
use rocksq::mpmc::MpmcQueue;
use rocksq::mpmc::MpmcStore;
use rocksq::mpmc::StartPosition;
use rocksq::nonblock::apply_mpmc_operation;
use rocksq::nonblock::apply_operation;
use rocksq::nonblock::MpmcOperation;
use rocksq::nonblock::MpmcResponseVariant;
use rocksq::nonblock::Operation;
use rocksq::nonblock::ResponseVariant;
use rocksq::reader::decode_reader;
use rocksq::reader::encode_reader;
use rocksq::reader::Reader;
use rocksq::ring::next_index;
use rocksq::ring::previous_index;
use rocksq::ring::MAX_INDEX;
use rocksq::store::CellMap;
use rocksq::version;

#[test]
fn version_is_stable() {
    assert_eq!(version(), "0.1.0");
}

#[test]
fn index_codec_round_trip() {
    for i in [0u64, 1, 255, 256, 65_535, MAX_INDEX - 1] {
        let key = index_to_key(i);
        assert_eq!(key.len(), 8);
        assert_eq!(key_to_index(key.as_slice()), i);
        assert_eq!(u64_from_byte_vec(key.as_slice()), i);
    }
    assert_eq!(index_to_key(1), vec![1, 0, 0, 0, 0, 0, 0, 0]);
    assert_eq!(index_to_key(258), vec![2, 1, 0, 0, 0, 0, 0, 0]);
}

#[test]
fn ring_step_functions_wrap() {
    assert_eq!(next_index(0), 1);
    assert_eq!(next_index(MAX_INDEX - 1), 0);
    assert_eq!(previous_index(0), MAX_INDEX - 1);
    assert_eq!(previous_index(1), 0);
}

#[test]
fn reader_record_round_trip() {
    for rd in [
        Reader::new(0, None, false),
        Reader::new(7, Some(123_456_789), true),
        Reader::new(u64::MAX - 200, Some(0), false),
    ] {
        let bytes = encode_reader(&rd);
        assert_eq!(bytes.len(), 18);
        assert_eq!(decode_reader(&bytes).unwrap(), rd);
    }
}

#[test]
fn reader_record_rejects_garbage() {
    assert!(matches!(decode_reader(&vec![1, 2, 3]), Err(QueueError::Decode)));
    let mut bytes = encode_reader(&Reader::new(3, None, false));
    bytes[8] = 9;
    assert!(matches!(decode_reader(&bytes), Err(QueueError::Decode)));
}

#[test]
fn error_messages_name_their_cause() {
    assert_eq!(QueueError::QueueFull.message(), "Queue is full");
    assert_eq!(
        QueueError::InvalidConfig.message(),
        "max_elements can't be greater than the index ring"
    );
    assert_eq!(
        QueueError::Unhealthy.message(),
        "Queue is unhealthy: cannot use it anymore."
    );
}

#[test]
fn persistent_queue_push_pop() {
    let mut queue = PersistentQueueWithCapacity::new(CellMap::new(), 3).unwrap();

    let resp = apply_operation(&mut queue, Operation::Length);
    assert!(matches!(resp, ResponseVariant::Length(0)));

    let resp = apply_operation(&mut queue, Operation::Push(vec![vec![1u8, 2u8, 3u8]]));
    assert!(matches!(resp, ResponseVariant::Push(Ok(()))));

    let resp = apply_operation(&mut queue, Operation::PayloadSize);
    assert!(matches!(resp, ResponseVariant::Size(Ok(3))));

    let resp = apply_operation(&mut queue, Operation::Length);
    assert!(matches!(resp, ResponseVariant::Length(1)));

    let resp = apply_operation(&mut queue, Operation::Pop(1));
    assert!(matches!(resp, ResponseVariant::Pop(Ok(v)) if v == vec![vec![1u8, 2u8, 3u8]]));

    let resp = apply_operation(&mut queue, Operation::Length);
    assert!(matches!(resp, ResponseVariant::Length(0)));

    let resp = apply_operation(&mut queue, Operation::Stop);
    assert!(matches!(resp, ResponseVariant::Stop));
}

#[test]
fn mpmc_queue_add_next() {
    let mut queue = MpmcQueue::new(MpmcStore::new()).unwrap();

    let resp = apply_mpmc_operation(&mut queue, MpmcOperation::Length);
    assert!(matches!(resp, MpmcResponseVariant::Length(0)));

    let resp = apply_mpmc_operation(&mut queue, MpmcOperation::Add(vec![vec![1u8, 2u8, 3u8]]));
    assert!(matches!(resp, MpmcResponseVariant::Add(Ok(()))));

    let resp = apply_mpmc_operation(&mut queue, MpmcOperation::Length);
    assert!(matches!(resp, MpmcResponseVariant::Length(1)));

    let resp = apply_mpmc_operation(
        &mut queue,
        MpmcOperation::Next(1, "label".to_string(), StartPosition::Oldest),
    );
    assert!(
        matches!(resp, MpmcResponseVariant::Next(Ok(v)) if v == (vec![vec![1u8, 2u8, 3u8]], false))
    );

    let resp = apply_mpmc_operation(&mut queue, MpmcOperation::Length);
    assert!(matches!(resp, MpmcResponseVariant::Length(1)));

    let resp = apply_mpmc_operation(&mut queue, MpmcOperation::GetLabels);
    assert!(matches!(resp, MpmcResponseVariant::GetLabels(ls) if ls == vec!["label".to_string()]));

    let resp = apply_mpmc_operation(&mut queue, MpmcOperation::RemoveLabel("label".to_string()));
    assert!(matches!(resp, MpmcResponseVariant::RemoveLabel(Ok(true))));

    let resp = apply_mpmc_operation(&mut queue, MpmcOperation::Stop);
    assert!(matches!(resp, MpmcResponseVariant::Stop));
}
