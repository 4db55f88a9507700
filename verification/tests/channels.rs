use tachyon::channel::{Channel, ChannelConfig, ChannelStats};
use tachyon::header::{
    Header, MESSAGE_TYPE_NACK, MESSAGE_TYPE_NONE, MESSAGE_TYPE_RELIABLE,
    MESSAGE_TYPE_RELIABLE_WITH_NACK,
};
use tachyon::nack::Nack;
use tachyon::network_address::NetworkAddress;
use tachyon::receiver::Receiver;
use tachyon::tachyon_socket::{SocketReceiveError, TachyonSocket};
use tachyon::TachyonSendError;

#[test]
fn test_rewrite_nack_to_reliable() {
    let mut channel = Channel::create(
        1,
        NetworkAddress::default(),
        ChannelConfig::default_ordered(),
    );
    let mut send_buffer: Vec<u8> = vec![0; 1200];
    let header = Header {
        message_type: MESSAGE_TYPE_RELIABLE_WITH_NACK,
        channel: 13,
        sequence: 200,
        start_sequence: 12345,
        flags: 99,
        ..Header::default()
    };

    header.write(&mut send_buffer);

    send_buffer[10] = 3;
    send_buffer[1199] = 7;
    let send_len = Channel::rewrite_reliable_nack_to_reliable(
        &mut channel.resend_rewrite_buffer,
        &send_buffer,
    );

    assert_eq!(1200 - 6, send_len);
    assert_eq!(3, channel.resend_rewrite_buffer[4]);
    assert_eq!(7, channel.resend_rewrite_buffer[1199 - 6]);

    let header = Header::read(&channel.resend_rewrite_buffer);
    assert_eq!(MESSAGE_TYPE_RELIABLE, header.message_type);
    assert_eq!(200, header.sequence);
    assert_eq!(13, header.channel);

    assert_eq!(0, header.start_sequence);
    assert_eq!(0, header.flags);
}

fn frame(message_type: u8, channel: u8, sequence: u16, body: &[u8]) -> Vec<u8> {
    let mut data: Vec<u8> = vec![0; 4 + body.len()];
    Header { message_type, channel, sequence, ..Header::default() }.write(&mut data);
    data[4..].copy_from_slice(body);
    data
}

fn accept(receiver: &mut Receiver, sequence: u16) -> bool {
    let data = frame(MESSAGE_TYPE_RELIABLE, 1, sequence, &[sequence as u8]);
    receiver.receive_packet(sequence, &data, data.len())
}

fn published_sequences(receiver: &mut Receiver) -> Vec<u16> {
    let mut sequences = Vec::new();
    while let Some(buffer) = receiver.take_published() {
        sequences.push(Header::read(buffer.get()).sequence);
        receiver.return_buffer(buffer);
    }
    sequences
}

#[test]
fn ordered_receiver_publishes_in_sequence() {
    let mut receiver = Receiver::create(true, 512);
    assert!(accept(&mut receiver, 1));
    assert!(accept(&mut receiver, 3));
    assert!(accept(&mut receiver, 4));
    assert_eq!(4, receiver.current_sequence);
    assert_eq!(1, receiver.last_sequence);
    assert_eq!(vec![2], receiver.resend_list);
    assert_eq!(vec![1], published_sequences(&mut receiver));

    // the gap closes: everything behind it goes out, in order
    assert!(accept(&mut receiver, 2));
    assert_eq!(4, receiver.last_sequence);
    assert!(receiver.resend_list.is_empty());
    assert_eq!(vec![2, 3, 4], published_sequences(&mut receiver));
}

#[test]
fn unordered_receiver_does_not_hold_back() {
    let mut receiver = Receiver::create(false, 512);
    assert!(accept(&mut receiver, 1));
    assert!(accept(&mut receiver, 3));
    assert!(accept(&mut receiver, 4));
    assert_eq!(1, receiver.last_sequence);
    assert_eq!(vec![1, 3, 4], published_sequences(&mut receiver));
    assert!(accept(&mut receiver, 2));
    assert_eq!(4, receiver.last_sequence);
    assert_eq!(vec![2], published_sequences(&mut receiver));
}

#[test]
fn receiver_accepts_a_sequence_once() {
    for ordered in [true, false] {
        let mut receiver = Receiver::create(ordered, 512);
        assert!(accept(&mut receiver, 1));
        assert!(!accept(&mut receiver, 1));
        assert!(accept(&mut receiver, 5));
        assert!(!accept(&mut receiver, 5));
        assert!(accept(&mut receiver, 2));
        assert!(!accept(&mut receiver, 2));
        assert!(!accept(&mut receiver, 1));
        // 65535 is no sequence
        assert!(!accept(&mut receiver, 65535));
        receiver.publish();
        let published = published_sequences(&mut receiver);
        let mut unique = published.clone();
        unique.sort_unstable();
        unique.dedup();
        assert_eq!(unique.len(), published.len());
    }
}

#[test]
fn receive_window_moves_and_drops_what_falls_out() {
    let mut receiver = Receiver::create(true, 8);
    assert!(accept(&mut receiver, 1));
    assert!(accept(&mut receiver, 3));
    published_sequences(&mut receiver);
    // 3 waits behind the gap at 2; the window moves past both
    assert!(accept(&mut receiver, 20));
    assert_eq!(20, receiver.current_sequence);
    assert_eq!(12, receiver.last_sequence);
    assert_eq!(1, receiver.skipped_sequences);
    assert!(!receiver.is_received(3));
    // behind the window, and the first sequence outside it
    assert!(!accept(&mut receiver, 3));
    assert!(!accept(&mut receiver, 12));
    assert!(accept(&mut receiver, 13));
    assert_eq!(vec![13], published_sequences(&mut receiver));
    for slot in &receiver.buffered.values {
        if let Some(entry) = slot {
            assert!(Receiver::distance(entry.sequence, receiver.current_sequence) < 8);
        }
    }
    assert_eq!(vec![14, 15, 16, 17, 18, 19], receiver.resend_list);
}

#[test]
fn receive_window_works_across_the_wrap() {
    let mut receiver = Receiver::create(true, 512);
    receiver.current_sequence = 65530;
    receiver.last_sequence = 65530;
    for sequence in [65531u16, 65532, 65533, 65534, 0, 1, 2] {
        assert!(accept(&mut receiver, sequence));
    }
    assert_eq!(2, receiver.current_sequence);
    assert_eq!(2, receiver.last_sequence);
    assert_eq!(
        vec![65531, 65532, 65533, 65534, 0, 1, 2],
        published_sequences(&mut receiver)
    );
    assert_eq!(7, Receiver::distance(65530, 2));
    assert_eq!(0, Receiver::distance(9, 9));
}

#[test]
fn receiver_window_is_kept_in_bounds() {
    assert_eq!(1, Receiver::create(true, 0).receive_window_size);
    assert_eq!(512, Receiver::create(true, 512).receive_window_size);
    assert_eq!(16384, Receiver::create(false, 1_000_000).receive_window_size);
    assert_eq!(16384, Receiver::create(false, 1_000_000).buffered.values.len());
}

#[test]
fn nacks_report_what_is_missing() {
    let mut receiver = Receiver::create(true, 512);
    assert!(accept(&mut receiver, 1));
    assert!(accept(&mut receiver, 40));
    assert!(accept(&mut receiver, 38));
    // missing: 2..=37 and 39
    assert_eq!(37, receiver.create_nacks());
    assert_eq!(37, receiver.resend_list.len());
    assert_eq!(2, receiver.nack_list.len());
    assert_eq!(2, receiver.nack_queue.len());
    let first = receiver.nack_list[0];
    assert_eq!(39, first.start_sequence);
    assert_eq!(32, first.nacked_count);
    assert_eq!(0, first.sent_count);
    // 38 steps back one bit, 37 down to 7 fill the rest
    assert_eq!(0xFFFF_FFFE, first.flags);
    let second = receiver.nack_list[1];
    assert_eq!(6, second.start_sequence);
    assert_eq!(0b1111, second.flags);
    assert_eq!(5, second.nacked_count);

    let mut reported: Vec<u16> = Vec::new();
    for nack in &receiver.nack_list {
        nack.get_nacked(&mut reported);
    }
    reported.sort_unstable();
    assert_eq!(receiver.resend_list, reported);

    // nothing missing, nothing reported; the queue keeps what it had
    let mut whole = Receiver::create(true, 512);
    assert!(accept(&mut whole, 1));
    assert_eq!(0, whole.create_nacks());
    assert!(whole.nack_list.is_empty());
    assert_eq!(37, receiver.create_nacks());
    assert_eq!(4, receiver.nack_queue.len());
}

fn open_socket() -> TachyonSocket {
    let mut socket = TachyonSocket::create();
    assert!(socket.bind_socket(NetworkAddress::test_address()).is_ok());
    socket
}

#[test]
fn channel_sends_reliable_frames() {
    let peer = NetworkAddress::localhost(9000);
    let mut channel = Channel::create(2, peer, ChannelConfig::default_unordered());
    assert!(!channel.is_ordered());
    let mut socket = open_socket();

    let sent = channel.send_reliable(peer, &[5, 6, 7, 8], 3, &mut socket).unwrap();
    assert_eq!(7, sent.sent_len);
    assert_eq!(MESSAGE_TYPE_RELIABLE, sent.header.message_type);
    assert_eq!(2, sent.header.channel);
    assert_eq!(1, sent.header.sequence);
    let datagram = socket.take_sent().unwrap();
    assert_eq!(peer, datagram.address);
    assert_eq!(vec![1, 2, 1, 0, 5, 6, 7], datagram.data);
    assert_eq!(1, channel.stats.sent);
    assert_eq!(7, channel.stats.bytes_sent);

    // a NACK that waits rides on the next frame, once
    channel.receiver.nack_queue.push_back(Nack {
        start_sequence: 0x0102,
        flags: 3,
        nacked_count: 3,
        sent_count: 0,
    });
    let sent = channel.send_reliable(peer, &[9], 1, &mut socket).unwrap();
    assert_eq!(11, sent.sent_len);
    assert_eq!(MESSAGE_TYPE_RELIABLE_WITH_NACK, sent.header.message_type);
    assert_eq!(0x0102, sent.header.start_sequence);
    assert_eq!(3, sent.header.flags);
    assert_eq!(
        vec![5, 2, 2, 0, 2, 1, 3, 0, 0, 0, 9],
        socket.take_sent().unwrap().data
    );
    assert_eq!(3, channel.stats.nacks_sent);
    assert_eq!(1, channel.receiver.nack_queue[0].sent_count);
    let sent = channel.send_reliable(peer, &[9], 1, &mut socket).unwrap();
    assert_eq!(MESSAGE_TYPE_RELIABLE, sent.header.message_type);
    assert_eq!(1, channel.receiver.nack_queue.len());

    // a port that is not open sends nothing
    let mut closed = TachyonSocket::create();
    let sent = channel.send_reliable(peer, &[9], 1, &mut closed).unwrap();
    assert_eq!(0, sent.sent_len);
    assert!(closed.take_sent().is_none());
}

#[test]
fn channel_answers_nacks() {
    let peer = NetworkAddress::localhost(9000);
    let mut channel = Channel::create(1, peer, ChannelConfig::default_ordered());
    let mut socket = open_socket();
    channel.receiver.nack_queue.push_back(Nack {
        start_sequence: 77,
        flags: 0,
        nacked_count: 1,
        sent_count: 0,
    });
    channel.send_reliable(peer, &[1, 2, 3], 3, &mut socket).unwrap();
    socket.take_sent();

    // the peer asks for sequence 1, which is kept, and for 9, which is not
    let mut request: Vec<u8> = vec![0; 16];
    Header { message_type: MESSAGE_TYPE_NACK, channel: 1, ..Header::default() }.write(&mut request);
    let nacks = vec![
        Nack { start_sequence: 1, ..Nack::default() },
        Nack { start_sequence: 9, ..Nack::default() },
    ];
    let end = Nack::write_varint(&nacks, &mut request, 4) as usize;
    channel.process_nack_message(peer, &request[..end]);
    channel.update(&mut socket);

    let mut answers = vec![
        socket.take_sent().unwrap().data,
        socket.take_sent().unwrap().data,
    ];
    answers.sort();
    // the kept frame goes out without the NACK it carried
    assert_eq!(vec![vec![1, 1, 1, 0, 1, 2, 3], vec![3, 1, 9, 0]], answers);
    assert!(socket.take_sent().is_none());
    assert_eq!(2, channel.stats.nacks_received);
    assert_eq!(1, channel.stats.resent);
    assert_eq!(1, channel.stats.nones_sent);

    // asked for once, answered once
    channel.update(&mut socket);
    assert!(socket.take_sent().is_none());
}

#[test]
fn channel_reports_missing_sequences() {
    let peer = NetworkAddress::localhost(9000);
    let mut channel = Channel::create(1, peer, ChannelConfig::default_ordered());
    let mut socket = open_socket();
    for sequence in [1u16, 4] {
        let data = frame(MESSAGE_TYPE_RELIABLE, 1, sequence, &[0]);
        assert!(channel.receiver.receive_packet(sequence, &data, data.len()));
    }
    channel.update(&mut socket);
    let datagram = socket.take_sent().unwrap();
    assert_eq!(peer, datagram.address);
    // NACK header, one entry: start 3, bit 0 for 2
    assert_eq!(vec![4, 1, 0, 0, 1, 3, 1], datagram.data);
    assert_eq!(2, channel.stats.nacks_sent);

    // the other side notes both
    let mut sender = Channel::create(1, peer, ChannelConfig::default_ordered());
    sender.process_nack_message(peer, &datagram.data);
    sender.update(&mut socket);
    let mut answers = vec![
        socket.take_sent().unwrap().data,
        socket.take_sent().unwrap().data,
    ];
    answers.sort();
    assert_eq!(vec![vec![3, 1, 2, 0], vec![3, 1, 3, 0]], answers);

    // the placeholders close the gap
    let mut buffer: Vec<u8> = vec![0; 64];
    assert_eq!((1, peer), channel.receive_published(&mut buffer));
    for answer in &answers {
        let sequence = Header::read(answer).sequence;
        channel.process_none_message(sequence, answer, answer.len());
    }
    assert_eq!(2, channel.stats.nones_received);
    assert_eq!(2, channel.stats.nones_accepted);
    assert_eq!(4, channel.receiver.last_sequence);
    // the two placeholders are passed over, the frame behind them comes out
    assert_eq!((1, peer), channel.receive_published(&mut buffer));
    assert_eq!((0, peer), channel.receive_published(&mut buffer));
    assert_eq!(MESSAGE_TYPE_NONE, answers[0][0]);
}

#[test]
fn channel_hands_out_bodies() {
    let peer = NetworkAddress::localhost(9000);
    let mut channel = Channel::create(1, peer, ChannelConfig::default_ordered());
    let mut with_nack: Vec<u8> = vec![0; 13];
    Header {
        message_type: MESSAGE_TYPE_RELIABLE_WITH_NACK,
        channel: 1,
        sequence: 1,
        ..Header::default()
    }
    .write_nacked(&mut with_nack);
    with_nack[10..].copy_from_slice(&[7, 8, 9]);
    assert!(channel.receiver.receive_packet(1, &with_nack, 13));
    let plain = frame(MESSAGE_TYPE_RELIABLE, 1, 2, &[4, 5]);
    assert!(channel.receiver.receive_packet(2, &plain, plain.len()));

    let mut buffer: Vec<u8> = vec![0; 8];
    assert_eq!((3, peer), channel.receive_published(&mut buffer));
    assert_eq!(&[7, 8, 9][..], &buffer[..3]);
    // a buffer that is too small gets what fits
    let mut small: Vec<u8> = vec![0; 1];
    assert_eq!((1, peer), channel.receive_published(&mut small));
    assert_eq!(vec![4], small);
    assert_eq!(2, channel.stats.published_consumed);
    assert_eq!((0, peer), channel.receive_published(&mut buffer));
}

#[test]
fn channel_stats_add_up() {
    let mut total = ChannelStats { sent: 1, resent: u64::MAX, ..ChannelStats::default() };
    let other = ChannelStats { sent: 2, resent: 2, skipped_sequences: 5, ..ChannelStats::default() };
    total.add_from(&other);
    assert_eq!(3, total.sent);
    assert_eq!(1, total.resent);
    assert_eq!(5, total.skipped_sequences);
    assert_eq!(0, total.received);

    let mut channel = Channel::create(1, NetworkAddress::default(), ChannelConfig::default_ordered());
    channel.receiver.skipped_sequences = 4;
    channel.update_stats();
    assert_eq!(4, channel.stats.skipped_sequences);
    assert!(channel.is_ordered());
    assert!(ChannelConfig::default_ordered().is_ordered());
    assert!(!ChannelConfig::default_unordered().is_ordered());
    assert_eq!(512, ChannelConfig::default_ordered().receive_window_size);
    assert_eq!(1, ChannelConfig::default_unordered().nack_redundancy);
}

#[test]
fn channel_sends_fragments() {
    let peer = NetworkAddress::localhost(9000);
    let mut channel = Channel::create(2, peer, ChannelConfig::default_unordered());
    let mut socket = open_socket();
    let data: Vec<u8> = (0..2500u32).map(|i| (i % 200) as u8).collect();
    let sent = channel.send_fragmented(peer, &data, data.len(), &mut socket).unwrap();
    assert_eq!(2530, sent.sent_len);
    assert_eq!(3, channel.stats.fragments_sent);
    assert_eq!(2530, channel.stats.bytes_sent);
    let mut body: Vec<u8> = Vec::new();
    for sequence in 1..=3u16 {
        let datagram = socket.take_sent().unwrap();
        let header = Header::read_fragmented(&datagram.data);
        assert_eq!(sequence, header.sequence);
        assert_eq!(3, header.fragment_count);
        assert_eq!(1, header.fragment_start_sequence);
        assert_eq!(2, header.fragment_group);
        body.extend_from_slice(&datagram.data[10..]);
    }
    assert_eq!(data, body);
    assert_eq!(
        Err(TachyonSendError::Fragment),
        channel.send_fragmented(peer, &data, 0, &mut socket)
    );
    let huge: Vec<u8> = vec![0; 1200 * 1023 + 1];
    assert_eq!(
        Err(TachyonSendError::Fragment),
        channel.send_fragmented(peer, &huge, huge.len(), &mut socket)
    );
    assert!(socket.take_sent().is_none());
}

#[test]
fn socket_queues_and_loss_injection() {
    let mut socket = TachyonSocket::create();
    let mut buffer: Vec<u8> = vec![0; 4];
    assert!(matches!(socket.receive(&mut buffer, 0, false), Err(SocketReceiveError::Error)));
    assert!(socket.send_to(NetworkAddress::default(), &[1], 1).is_err());
    assert!(socket.connect_socket(NetworkAddress::test_address()).is_ok());
    assert!(socket.connect_socket(NetworkAddress::test_address()).is_err());
    assert!(socket.bind_socket(NetworkAddress::test_address()).is_err());
    assert!(!socket.is_server);
    assert_eq!(NetworkAddress::test_address(), socket.peer);
    assert!(matches!(socket.receive(&mut buffer, 0, false), Err(SocketReceiveError::Empty)));

    socket.deliver(NetworkAddress::localhost(1), vec![1, 2, 3, 4, 5, 6]);
    let received = socket.receive(&mut buffer, 0, false).ok().unwrap();
    // a client does not learn the sender; what does not fit is cut off
    assert_eq!(4, received.bytes_received);
    assert!(received.network_address.is_default());
    assert_eq!(vec![1, 2, 3, 4], buffer);

    // at a chance of 100 every datagram is dropped, and it is gone then
    socket.deliver(NetworkAddress::localhost(1), vec![0, 9]);
    assert!(matches!(socket.receive(&mut buffer, 100, false), Err(SocketReceiveError::Dropped)));
    assert!(matches!(socket.receive(&mut buffer, 100, false), Err(SocketReceiveError::Empty)));
    // where only reliable frames are to go, an unreliable one stays
    socket.deliver(NetworkAddress::localhost(1), vec![0, 9]);
    assert!(socket.receive(&mut buffer, 100, true).is_ok());
    socket.deliver(NetworkAddress::localhost(1), vec![1, 9]);
    assert!(matches!(socket.receive(&mut buffer, 100, true), Err(SocketReceiveError::Dropped)));

    assert!(TachyonSocket::drop_decision(5, 0, 5, false));
    assert!(!TachyonSocket::drop_decision(6, 0, 5, false));
    assert!(!TachyonSocket::drop_decision(5, 0, 5, true));
    assert!(TachyonSocket::drop_decision(5, 1, 5, true));

    assert_eq!(Ok(2), socket.send_to(NetworkAddress::localhost(7), &[1, 2, 3], 2));
    let datagram = socket.take_sent().unwrap();
    assert_eq!(vec![1, 2], datagram.data);
    assert_eq!(NetworkAddress::localhost(7), datagram.address);
}

#[test]
fn malformed_frames_are_not_taken_in() {
    let mut receiver = Receiver::create(true, 512);
    // too short for a header
    assert!(!receiver.receive_packet(1, &[1, 1, 1], 3));
    // the payload is kept under the sequence it was accepted under
    let data = frame(MESSAGE_TYPE_RELIABLE, 1, 9, &[5]);
    assert!(receiver.receive_packet(1, &data, data.len()));
    let payload = receiver.take_published().unwrap();
    assert_eq!(1, Header::read(payload.get()).sequence);
    assert_eq!(5, payload.get()[4]);
    assert_eq!(5, payload.length);

    let peer = NetworkAddress::localhost(9000);
    let mut channel = Channel::create(1, peer, ChannelConfig::default_ordered());
    channel.process_none_message(1, &[3, 1, 1], 3);
    assert_eq!(1, channel.stats.nones_received);
    assert_eq!(0, channel.stats.nones_accepted);
    channel.process_fragment_message(1, &[2, 1, 1, 0, 1, 0, 1, 0, 1], 9);
    assert_eq!(0, channel.stats.fragments_received);
    assert!(channel.frag.received.is_empty());
    assert!(!channel.receiver.is_received(1));
    // a frame that ends before its NACK does carries none
    let mut socket = open_socket();
    channel.send_reliable(peer, &[1], 1, &mut socket).unwrap();
    socket.take_sent();
    channel.process_single_nack(peer, &[5, 1, 1, 0, 1, 0, 0]);
    channel.update(&mut socket);
    assert!(socket.take_sent().is_none());
    channel.process_single_nack(peer, &[5, 1, 1, 0, 1, 0, 0, 0, 0, 0]);
    channel.update(&mut socket);
    assert_eq!(vec![1, 1, 1, 0, 1], socket.take_sent().unwrap().data);
}

#[test]
fn a_piggybacked_nack_that_starts_at_zero_is_taken_in() {
    let peer = NetworkAddress::localhost(9001);
    let mut channel = Channel::create(1, peer, ChannelConfig::default_ordered());
    // start 0, flags 0b11: sequences 0, 65534 and 65533
    channel.process_single_nack(peer, &[5, 1, 9, 0, 0, 0, 3, 0, 0, 0]);
    assert_eq!(vec![0, 65534, 65533], channel.nacked_sequences);
    assert_eq!(3, channel.nacked_sequence_map.len());
    assert!(channel.nacked_sequence_map.contains_key(&0));
    assert!(channel.nacked_sequence_map.contains_key(&65534));
    assert!(channel.nacked_sequence_map.contains_key(&65533));
}

#[test]
fn a_channel_has_the_window_it_was_configured_with() {
    let peer = NetworkAddress::localhost(9001);
    let config = |receive_window_size| ChannelConfig {
        receive_window_size,
        nack_redundancy: 1,
        ordered: 1,
    };
    assert_eq!(1, Channel::create(1, peer, config(0)).receiver.receive_window_size);
    assert_eq!(512, Channel::create(1, peer, config(512)).receiver.receive_window_size);
    assert_eq!(16384, Channel::create(1, peer, config(16384)).receiver.receive_window_size);
    assert_eq!(16384, Channel::create(1, peer, config(16385)).receiver.receive_window_size);
    assert_eq!(16384, Channel::create(1, peer, config(u32::MAX)).receiver.buffered.values.len());
}
