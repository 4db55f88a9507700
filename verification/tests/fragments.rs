use std::time::{Duration, Instant};

use tachyon::fragmentation::Fragmentation;
use tachyon::header::{Header, MESSAGE_TYPE_FRAGMENT};
use tachyon::send_buffer_manager::SendBufferManager;

#[test]
fn fragmentation_test_expire() {
    let mut frag = Fragmentation::default();
    frag.received_at.insert(1, Instant::now());
    frag.expire_groups();
    assert!(frag.received_at.contains_key(&1));
    assert_eq!(1, frag.received_at.len());

    let now = Instant::now().checked_sub(Duration::from_secs(6)).unwrap();
    frag.received_at.insert(2, now);
    frag.expire_groups();
    assert!(!frag.received_at.contains_key(&2));
    assert_eq!(1, frag.received_at.len());
}

#[test]
fn test_create() {
    let mut frag = Fragmentation::default();
    let mut sender = SendBufferManager::create();

    let data: Vec<u8> = vec![0; 1400];
    assert_eq!(1400, data.len());

    let result = frag.create_fragments(&mut sender, 1, &data[..], data.len());
    assert_eq!(2, result.len());
    let buffer = sender.get_send_buffer(result[0]).unwrap();
    assert_eq!(1210, buffer.byte_buffer.length);
    let header = Header::read_fragmented(buffer.byte_buffer.get());
    assert_eq!(MESSAGE_TYPE_FRAGMENT, header.message_type);
    assert_eq!(1, header.sequence);
    assert_eq!(1, header.fragment_start_sequence);
    assert_eq!(2, header.fragment_count);

    let buffer = sender.get_send_buffer(result[1]).unwrap();
    assert_eq!(210, buffer.byte_buffer.length);

    let header = Header::read_fragmented(buffer.byte_buffer.get());
    assert_eq!(MESSAGE_TYPE_FRAGMENT, header.message_type);
    assert_eq!(2, header.sequence);
}

#[test]
fn fragmentation_test_receive() {
    let mut frag = Fragmentation::default();
    let mut sender = SendBufferManager::create();

    let data: Vec<u8> = vec![3; 2500];
    let created = frag.create_fragments(&mut sender, 1, &data[..], data.len());
    let send_buffer = sender.get_send_buffer(created[0]).unwrap();
    let complete = frag.receive_fragment(
        send_buffer.byte_buffer.get(),
        send_buffer.byte_buffer.length,
    );
    assert!(!complete.1);

    let send_buffer = sender.get_send_buffer(created[1]).unwrap();
    let complete = frag.receive_fragment(
        send_buffer.byte_buffer.get(),
        send_buffer.byte_buffer.length,
    );
    assert!(!complete.1);

    let send_buffer = sender.get_send_buffer(created[2]).unwrap();
    let complete = frag.receive_fragment(
        send_buffer.byte_buffer.get(),
        send_buffer.byte_buffer.length,
    );
    assert!(complete.1);

    let header = Header::read_fragmented(send_buffer.byte_buffer.get());
    let assembled = frag.assemble(header);
    assert!(assembled.is_ok());
    let assembled_data = assembled.unwrap();
    assert_eq!(2500, assembled_data.len());

    for byte in assembled_data {
        assert_eq!(3, byte);
    }
}

#[test]
fn fragment_round_trip_of_zeros() {
    let mut frag = Fragmentation::default();
    let mut sender = SendBufferManager::create();
    let data: Vec<u8> = vec![0; 2500];
    let created = frag.create_fragments(&mut sender, 1, &data[..], data.len());
    assert_eq!(vec![1, 2, 3], created);

    let mut receiving = Fragmentation::default();
    let mut last = Header::default();
    for sequence in &created {
        let send_buffer = sender.get_send_buffer(*sequence).unwrap();
        let header = Header::read_fragmented(send_buffer.byte_buffer.get());
        assert_eq!(3, header.fragment_count);
        assert_eq!(1, header.channel);
        assert_eq!(1, header.fragment_start_sequence);
        let taken = receiving.receive_fragment(
            send_buffer.byte_buffer.get(),
            send_buffer.byte_buffer.length,
        );
        assert!(taken.0);
        assert_eq!(*sequence == 3, taken.1);
        last = header;
    }
    let assembled = receiving.assemble(last).unwrap();
    assert_eq!(data, assembled);
    // the group is gone once it has been joined
    assert!(receiving.assemble(last).is_err());
    assert!(receiving.received.is_empty());
}

#[test]
fn fragment_round_trip_keeps_every_byte() {
    let mut frag = Fragmentation::default();
    let mut sender = SendBufferManager::create();
    sender.current_sequence = 65533;
    frag.next_group = 65533;
    let data: Vec<u8> = (0..3601u32).map(|i| (i % 251) as u8).collect();
    let created = frag.create_fragments(&mut sender, 9, &data[..], data.len());
    // sequences and group ids wrap
    assert_eq!(vec![65534, 0, 1, 2], created);
    assert_eq!(1, frag.next_group);

    let mut receiving = Fragmentation::default();
    let mut header = Header::default();
    // out of order, and one frame twice
    for sequence in [1u16, 65534, 1, 2, 0] {
        let send_buffer = sender.get_send_buffer(sequence).unwrap();
        header = Header::read_fragmented(send_buffer.byte_buffer.get());
        assert_eq!(1, header.fragment_group);
        assert_eq!(65534, header.fragment_start_sequence);
        receiving.receive_fragment(
            send_buffer.byte_buffer.get(),
            send_buffer.byte_buffer.length,
        );
    }
    assert_eq!(data, receiving.assemble(header).unwrap());
}

#[test]
fn assemble_fails_without_all_fragments() {
    let mut frag = Fragmentation::default();
    let mut sender = SendBufferManager::create();
    let data: Vec<u8> = vec![1; 2500];
    let created = frag.create_fragments(&mut sender, 1, &data[..], data.len());

    let mut receiving = Fragmentation::default();
    let first = sender.get_send_buffer(created[0]).unwrap();
    let header = Header::read_fragmented(first.byte_buffer.get());
    // unknown group
    assert!(receiving.assemble(header).is_err());
    receiving.receive_fragment(first.byte_buffer.get(), first.byte_buffer.length);
    // too few fragments: the group stays
    assert!(receiving.assemble(header).is_err());
    assert_eq!(1, receiving.received.len());

    // the count is right but a sequence is not the expected one: the group goes
    let mut lying = header;
    lying.fragment_count = 1;
    lying.fragment_start_sequence = 7;
    assert!(receiving.assemble(lying).is_err());
    assert!(receiving.received.is_empty());
}

#[test]
fn fragment_threshold_and_groups() {
    assert!(!Fragmentation::should_fragment(1199));
    assert!(Fragmentation::should_fragment(1200));
    assert!(!Fragmentation::is_expired(5000));
    assert!(Fragmentation::is_expired(5001));

    let mut frag = Fragmentation::default();
    let mut sender = SendBufferManager::create();
    let data: Vec<u8> = vec![0; 1200];
    assert_eq!(1, frag.create_fragments(&mut sender, 1, &data[..], 1200).len());
    assert_eq!(2, frag.next_group);
    assert_eq!(2, frag.create_fragments(&mut sender, 1, &data[..], 1200).len() + 1);
    assert_eq!(3, frag.next_group);
    assert!(frag.create_fragments(&mut sender, 1, &data[..], 0).is_empty());
}

#[test]
fn expired_groups_lose_their_fragments() {
    let mut frag = Fragmentation::default();
    let mut sender = SendBufferManager::create();
    let data: Vec<u8> = vec![0; 2500];
    let created = frag.create_fragments(&mut sender, 1, &data[..], data.len());
    let first = sender.get_send_buffer(created[0]).unwrap();
    let header = Header::read_fragmented(first.byte_buffer.get());

    let mut receiving = Fragmentation::default();
    receiving.receive_fragment(first.byte_buffer.get(), first.byte_buffer.length);
    receiving.expire_groups();
    assert!(receiving.received.contains_key(&header.fragment_group));

    let old = Instant::now().checked_sub(Duration::from_secs(6)).unwrap();
    receiving.received_at.insert(header.fragment_group, old);
    receiving.expire_groups();
    assert!(!receiving.received.contains_key(&header.fragment_group));
    assert!(receiving.received_at.is_empty());
}

#[test]
fn a_group_is_dropped_at_the_age_at_which_it_is_given_up() {
    let mut frag = Fragmentation::default();
    let mut sender = SendBufferManager::create();
    let data: Vec<u8> = vec![0; 2500];
    let created = frag.create_fragments(&mut sender, 1, &data[..], data.len());
    let first = sender.get_send_buffer(created[0]).unwrap();
    let group = Header::read_fragmented(first.byte_buffer.get()).fragment_group;

    let mut receiving = Fragmentation::default();
    receiving.receive_fragment(first.byte_buffer.get(), first.byte_buffer.length);
    receiving.received_at.insert(group + 1, Instant::now());

    // five seconds are not too old, a millisecond more is
    receiving.expire_group(group, 5000);
    assert!(receiving.received.contains_key(&group));
    assert!(receiving.received_at.contains_key(&group));
    receiving.expire_group(group, 5001);
    assert!(!receiving.received.contains_key(&group));
    assert!(!receiving.received_at.contains_key(&group));

    // the other time stamp is still there; one without a group goes alone
    assert_eq!(1, receiving.received_at.len());
    receiving.expire_group(group + 1, u128::MAX);
    assert!(receiving.received_at.is_empty());
    // a group that is not there: nothing happens
    receiving.expire_group(9, 9000);
    assert!(receiving.received.is_empty());
    assert_eq!(1, receiving.next_group);
    assert!(!Fragmentation::is_expired(5000));
    assert!(Fragmentation::is_expired(5001));
}

#[test]
fn fragments_take_their_slots_and_no_other() {
    let mut frag = Fragmentation::default();
    let mut sender = SendBufferManager::create();
    let data = vec![7u8; 2400];
    assert_eq!(vec![1, 2], frag.create_fragments(&mut sender, 1, &data, 2400));
    for sequence in [1u16, 2] {
        let kept = sender.get_send_buffer(sequence).unwrap();
        assert_eq!(1210, kept.byte_buffer.length);
        let header = Header::read_fragmented(kept.byte_buffer.get());
        assert_eq!(MESSAGE_TYPE_FRAGMENT, header.message_type);
        assert_eq!(sequence, header.sequence);
        assert_eq!(2, header.fragment_count);
        assert_eq!(1, header.fragment_start_sequence);
        assert!(kept.byte_buffer.get()[10..1210].iter().all(|b| *b == 7));
    }
    assert_eq!(2, sender.current_sequence);
    assert!(sender.get_send_buffer(3).is_none());
    assert!(sender.get_send_buffer(0).is_none());
    assert_eq!(2, sender.buffers.values.iter().filter(|slot| slot.is_some()).count());
    // the frames' buffers came from the pool, which had none to give
    assert!(sender.buffer_pool.is_empty());

    // a frame that was kept before stays where no fragment takes its slot
    let mut sender = SendBufferManager::create();
    let kept = sender.create_send_buffer(32).unwrap().sequence;
    assert_eq!(1, kept);
    assert_eq!(vec![2, 3], frag.create_fragments(&mut sender, 1, &data, 2400));
    assert_eq!(32, sender.get_send_buffer(1).unwrap().byte_buffer.length);
}
