use tachyon::byte_buffer_pool::{
    ByteBuffer, ByteBufferPool, BYTE_BUFFER_SIZE_DEFAULT, POOL_SIZE_DEFAULT,
};
use tachyon::send_buffer_manager::SendBufferManager;
use tachyon::sequence::Sequence;
use tachyon::sequence_buffer::SequenceBuffer;
use std::time::{Duration, Instant};

#[test]
fn get_return_within_limits() {
    let mut pool = ByteBufferPool::default();

    let buffer = pool.get_buffer(BYTE_BUFFER_SIZE_DEFAULT);
    assert!(pool.return_buffer(buffer));
    assert_eq!(1, pool.len());
}

#[test]
fn get_allocates_over_max() {
    let mut pool = ByteBufferPool::default();

    let buffer = pool.get_buffer(BYTE_BUFFER_SIZE_DEFAULT);
    pool.return_buffer(buffer);
    pool.get_buffer(BYTE_BUFFER_SIZE_DEFAULT + 1);
    assert_eq!(1, pool.len());
}

#[test]
fn will_not_return_over_max_buffer_size() {
    let mut pool = ByteBufferPool::default();

    let buffer = pool.get_buffer(BYTE_BUFFER_SIZE_DEFAULT + 1);
    assert!(!pool.return_buffer(buffer));
    assert_eq!(0, pool.len());
}

#[test]
fn will_not_return_if_full() {
    let mut pool = ByteBufferPool::default();

    for _ in 0..POOL_SIZE_DEFAULT {
        let buffer = ByteBuffer::create(1024);
        assert!(pool.return_buffer(buffer));
    }

    let buffer = ByteBuffer::create(1024);
    assert!(!pool.return_buffer(buffer));
}

#[test]
fn pool_return_full_keeps_length() {
    let mut pool = ByteBufferPool::default();
    for _ in 0..512 {
        assert!(pool.return_buffer(ByteBuffer::create(1024)));
    }
    assert!(!pool.return_buffer(ByteBuffer::create(1024)));
    assert_eq!(512, pool.len());
    assert!(!pool.is_empty());
}

#[test]
fn pool_hands_out_in_order_of_return() {
    let mut pool = ByteBufferPool::create(16, 4);
    let mut first = ByteBuffer::create(8);
    first.get_mut()[0] = 1;
    let mut second = ByteBuffer::create(8);
    second.get_mut()[0] = 2;
    assert!(pool.return_buffer(first));
    assert!(pool.return_buffer(second));

    let got = pool.get_buffer(12);
    assert_eq!(1, got.get()[0]);
    assert_eq!(1, got.version);
    assert_eq!(12, got.length);
    assert!(got.capacity() >= 12);
    assert_eq!(16, got.capacity());
    let got = pool.get_buffer(3);
    assert_eq!(2, got.get()[0]);
    assert!(pool.is_empty());

    let minted = pool.get_buffer(3);
    assert!(minted.pooled);
    assert_eq!(0, minted.version);
    assert_eq!(16, minted.get().len());
}

#[test]
fn buffer_version_wraps() {
    let mut pool = ByteBufferPool::create(16, 4);
    let mut buffer = ByteBuffer::create(8);
    buffer.version = u64::MAX;
    assert!(pool.return_buffer(buffer));
    assert_eq!(0, pool.get_buffer(8).version);
}

#[test]
fn test_create_buffer() {
    let mut manager = SendBufferManager::create();
    let buffer = manager
        .create_send_buffer(BYTE_BUFFER_SIZE_DEFAULT)
        .unwrap();
    assert!(buffer.byte_buffer.pooled);

    let buffer = manager
        .create_send_buffer(BYTE_BUFFER_SIZE_DEFAULT + 1)
        .unwrap();
    assert!(!buffer.byte_buffer.pooled);
}

#[test]
fn test_reused_buffer() {
    let mut manager = SendBufferManager::create();
    manager.current_sequence = 10;
    let buffer = manager
        .create_send_buffer(BYTE_BUFFER_SIZE_DEFAULT)
        .unwrap();
    assert_eq!(11, buffer.sequence);
    assert_eq!(0, buffer.byte_buffer.version);

    // should get back same byte buffer with same version and new length
    manager.current_sequence = 10;
    let buffer = manager
        .create_send_buffer(BYTE_BUFFER_SIZE_DEFAULT - 1)
        .unwrap();
    assert_eq!(11, buffer.sequence);
    assert_eq!(0, buffer.byte_buffer.version);
    assert!(buffer.byte_buffer.pooled);
    assert_eq!(BYTE_BUFFER_SIZE_DEFAULT - 1, buffer.byte_buffer.length);

    // should get new byte buffer
    manager.current_sequence = 10;
    let buffer = manager
        .create_send_buffer(BYTE_BUFFER_SIZE_DEFAULT + 10)
        .unwrap();
    assert_eq!(11, buffer.sequence);
    assert_eq!(0, buffer.byte_buffer.version);
    assert!(!buffer.byte_buffer.pooled);
    assert_eq!(BYTE_BUFFER_SIZE_DEFAULT + 10, buffer.byte_buffer.length);
}

#[test]
fn send_buffer_manager_test_expire() {
    let mut buffers = SendBufferManager::create();
    let buffer = buffers.create_send_buffer(32);
    let buffer = buffer.unwrap();
    let sequence = buffer.sequence;
    let now = Instant::now().checked_sub(Duration::from_secs(6)).unwrap();
    buffer.created_at = now;

    assert!(buffers.buffers.is_some(sequence));
    buffers.expire();
    assert!(!buffers.buffers.is_some(sequence));
}

#[test]
fn send_buffer_expiry_keeps_fresh_frames() {
    let mut buffers = SendBufferManager::create();
    let sequence = buffers.create_send_buffer(32).unwrap().sequence;
    buffers.expire();
    assert!(buffers.buffers.is_some(sequence));
    assert!(!SendBufferManager::is_expired(5000));
    assert!(SendBufferManager::is_expired(5001));
}

#[test]
fn send_buffer_old_is_never_pooled() {
    let mut buffers = SendBufferManager::create();
    let buffer = buffers.create_send_buffer_old(20).unwrap();
    assert_eq!(1, buffer.sequence);
    assert!(!buffer.byte_buffer.pooled);
    assert_eq!(20, buffer.byte_buffer.length);
    assert_eq!(20, buffer.byte_buffer.get().len());
    assert!(buffers.get_send_buffer(1).is_some());
    assert!(buffers.get_send_buffer(2).is_none());
    // the slot is shared by sequences 1024 apart
    assert_eq!(1, buffers.get_send_buffer(1025).unwrap().sequence);
}

#[test]
fn test_basic() {
    assert_eq!(65534, Sequence::next_sequence(65533));
    assert_eq!(0, Sequence::next_sequence(65534));
    assert_eq!(1, Sequence::next_sequence(0));

    assert_eq!(65533, Sequence::previous_sequence(65534));
    assert_eq!(65534, Sequence::previous_sequence(0));
    assert_eq!(0, Sequence::previous_sequence(1));

    assert!(Sequence::is_greater_then(0, 65534));
}

#[test]
fn sequence_algebra_on_values() {
    for s in [0u16, 1, 2, 511, 512, 32767, 32768, 65533, 65534] {
        assert_eq!(s, Sequence::next_sequence(Sequence::previous_sequence(s)));
        assert_eq!(s, Sequence::previous_sequence(Sequence::next_sequence(s)));
        assert!(Sequence::is_greater_then(Sequence::next_sequence(s), s));
        assert!(Sequence::is_less_than(s, Sequence::next_sequence(s)));
        assert!(Sequence::is_equal_to_or_less_than(s, s));
        assert!(!Sequence::is_greater_then(s, s));
    }
    assert!(Sequence::is_greater_then(32768, 0));
    assert!(!Sequence::is_greater_then(32769, 0));
    assert!(Sequence::is_greater_then(0, 32769));
    assert!(Sequence::is_equal_to_or_less_than(5, 6));
    assert!(!Sequence::is_equal_to_or_less_than(6, 5));
}

#[test]
fn basic_test() {
    let data: Vec<u8> = vec![0; 32];
    let mut buffer: SequenceBuffer<Vec<u8>> = SequenceBuffer {
        values: vec![None; 1024],
        partition_by: 1024,
    };

    buffer.insert(1, data);
    let option = buffer.get(1);
    assert!(option.is_some());
}

#[test]
fn sequence_buffer_slots() {
    let mut buffer: SequenceBuffer<u32> = SequenceBuffer::create(8);
    assert_eq!(3, buffer.sequence_to_index(11));
    assert!(!buffer.is_some(11));
    buffer.insert(11, 7);
    assert!(buffer.is_some(3));
    assert_eq!(Some(&7), buffer.get(19));
    assert_eq!(Some(&7), buffer.get_at_index(3));
    assert_eq!(None, buffer.get_at_index(8));
    *buffer.get_mut(3).unwrap() = 9;
    assert_eq!(Some(9), buffer.take(11));
    assert_eq!(None, buffer.take(11));
    buffer.insert(1, 5);
    buffer.insert(9, 6);
    assert_eq!(Some(&6), buffer.get(1));
    buffer.remove(1);
    assert!(buffer.get(9).is_none());
    buffer.insert(2, 1);
    buffer.remove_at_index(2);
    assert!(buffer.get_mut(2).is_none());
}

#[test]
fn a_slot_is_emptied_at_the_age_at_which_a_frame_is_given_up() {
    let mut buffers = SendBufferManager::create();
    let first = buffers.create_send_buffer(32).unwrap().sequence;
    let second = buffers.create_send_buffer(32).unwrap().sequence;
    assert_eq!((1, 2), (first, second));

    // five seconds are not too old, a millisecond more is
    buffers.expire_slot(1, 5000);
    assert!(buffers.buffers.is_some(first));
    buffers.expire_slot(1, 5001);
    assert!(!buffers.buffers.is_some(first));
    assert!(buffers.buffers.is_some(second));
    assert_eq!(2, buffers.current_sequence);

    // an empty slot stays empty, and a slot that is not there is passed over
    buffers.expire_slot(7, 9000);
    buffers.expire_slot(1024, 9000);
    buffers.expire_slot(usize::MAX, u128::MAX);
    assert!(buffers.buffers.is_some(second));
    assert_eq!(1024, buffers.buffers.values.len());
    buffers.expire_slot(2, u128::MAX);
    assert!(buffers.buffers.values.iter().all(|slot| slot.is_none()));
}

#[test]
fn milliseconds_are_capped_at_64_bits() {
    assert_eq!(0, tachyon::clock::millis_in_u64(0));
    assert_eq!(5000, tachyon::clock::millis_in_u64(5000));
    assert_eq!(u64::MAX, tachyon::clock::millis_in_u64(u64::MAX as u128));
    assert_eq!(u64::MAX, tachyon::clock::millis_in_u64(u64::MAX as u128 + 1));
    assert_eq!(u64::MAX, tachyon::clock::millis_in_u64(u128::MAX));
}
