use tachyon::channel::ChannelConfig;
use tachyon::connection::Identity;
use tachyon::header::{MESSAGE_TYPE_RELIABLE, TACHYON_HEADER_SIZE};
use tachyon::network_address::NetworkAddress;
use tachyon::pool::SendTarget;
use tachyon::receive_result::{ReceiveError, ReceiveSuccess, ReceiveType};
use tachyon::tachyon_receive_result::{
    TachyonReceiveError, TachyonReceiveSuccess, TachyonReceiveType,
};
use tachyon::tachyon::ReceiveStep;
use tachyon::{EventKind, Tachyon, TachyonConfig, TachyonSendError, TachyonSendSuccess};

/// Puts on the wire what `from` has sent: every datagram arrives at `to`,
/// as coming from `from_address`. Where `only_for` is given, datagrams for
/// other peers are lost.
fn carry(
    from: &mut Tachyon,
    from_address: NetworkAddress,
    to: &mut Tachyon,
    only_for: Option<NetworkAddress>,
) {
    let mut datagrams = Vec::new();
    while let Some(datagram) = from.socket.take_sent() {
        datagrams.push(datagram);
    }
    if let Some(sender) = &mut from.unreliable_sender {
        while let Some(datagram) = sender.take_sent() {
            datagrams.push(datagram);
        }
    }
    for datagram in datagrams {
        if only_for.is_none() || only_for == Some(datagram.address) {
            to.socket.deliver(from_address, datagram.data);
        }
    }
}

struct TachyonTest {
    client_address: NetworkAddress,
    client_public: NetworkAddress,
    client: Tachyon,
    server: Tachyon,
    address: NetworkAddress,
    receive_buffer: Vec<u8>,
    send_buffer: Vec<u8>,
}

type SendResult = Result<TachyonSendSuccess, TachyonSendError>;
type ReceiveResult = Result<TachyonReceiveSuccess, TachyonReceiveError>;

impl TachyonTest {
    fn create(address: NetworkAddress) -> Self {
        let config = TachyonConfig::default();

        Self {
            client_address: NetworkAddress::default(),
            client_public: NetworkAddress::mock_client_address(),
            address,
            client: Tachyon::create(config),
            server: Tachyon::create(config),
            receive_buffer: vec![0; 4096],
            send_buffer: vec![0; 4096],
        }
    }

    fn default() -> Self {
        Self::create(NetworkAddress::test_address())
    }

    fn connect(&mut self) {
        assert!(self.server.bind(self.address), "bind failed");
        assert!(self.client.connect(self.address), "connect failed");
    }

    fn client_send_reliable(&mut self, channel_id: u8, length: usize) -> SendResult {
        let target = SendTarget {
            address: self.client_address,
            identity_id: 0,
        };

        self.client
            .send_to_target(channel_id, target, &self.send_buffer, length)
    }

    fn client_send_unreliable(&mut self, length: usize) -> SendResult {
        let target = SendTarget {
            address: self.client_address,
            identity_id: 0,
        };

        self.client.send_to_target(0, target, &self.send_buffer, length)
    }

    fn server_receive(&mut self) -> ReceiveResult {
        carry(&mut self.client, self.client_public, &mut self.server, None);
        self.server.receive_loop(&mut self.receive_buffer)
    }

    fn client_receive(&mut self) -> ReceiveResult {
        carry(
            &mut self.server,
            self.address,
            &mut self.client,
            Some(self.client_public),
        );
        self.client.receive_loop(&mut self.receive_buffer)
    }
}

#[test]
fn test_connect_before_bind() {
    let address = NetworkAddress::test_address();
    let mut buffer: Vec<u8> = vec![0; 1024];
    let config = TachyonConfig::default();
    let mut server = Tachyon::create(config);
    let mut client = Tachyon::create(config);

    assert!(client.connect(address));
    server.bind(address);

    let target = SendTarget {
        address: NetworkAddress::default(),
        identity_id: 0,
    };
    let sent = client.send_to_target(1, target, &mut buffer, 32);
    assert!(sent.is_ok());

    carry(&mut client, NetworkAddress::mock_client_address(), &mut server, None);
    let res = server.receive_loop(&mut buffer).unwrap();
    assert_eq!(32, res.length);
}

#[test]
fn test_server_receive_invalid_without_bind() {
    let mut buffer: Vec<u8> = vec![0; 1024];
    let config = TachyonConfig::default();
    let mut server = Tachyon::create(config);
    let res = server.receive_loop(&mut buffer);
    assert!(res.is_err());
}

#[test]
fn test_reliable() {
    // reliable messages just work with message bodies, headers are all internal

    let mut test = TachyonTest::default();
    test.connect();

    test.send_buffer[0] = 4;
    let sent = test.client_send_reliable(1, 2);
    // sent_len reports total including header.
    assert_eq!(2 + TACHYON_HEADER_SIZE, sent.unwrap().sent_len as usize);

    let res = test.server_receive().unwrap();
    assert_eq!(2, res.length);
    assert_eq!(4, test.receive_buffer[0]);

    let _ = test.client_send_reliable(2, 33).unwrap();
    let res = test.server_receive().unwrap();
    assert_eq!(33, res.length);

    // fragmented
    let _ = test.client_send_reliable(2, 3497).unwrap();
    let res = test.server_receive().unwrap();
    assert_eq!(3497, res.length);
}

#[test]
fn test_unconfigured_channel_fails() {
    let mut test = TachyonTest::default();
    let channel_config = ChannelConfig::default_ordered();
    test.client.configure_channel(3, channel_config);
    test.connect();

    let sent = test.client_send_reliable(3, 2);
    assert_eq!(2 + TACHYON_HEADER_SIZE, sent.unwrap().sent_len as usize);

    let res = test.server_receive();
    assert!(res.is_err());
}

#[test]
fn test_configured_channel() {
    let mut test = TachyonTest::default();
    let channel_config = ChannelConfig::default_ordered();
    test.client.configure_channel(3, channel_config);
    test.server.configure_channel(3, channel_config);
    test.connect();

    let sent = test.client_send_reliable(3, 2);
    assert_eq!(2 + TACHYON_HEADER_SIZE, sent.unwrap().sent_len as usize);

    let res = test.server_receive().unwrap();
    assert_eq!(2, res.length);
}

#[test]
fn test_unreliable() {
    let mut test = TachyonTest::default();
    test.connect();

    // unreliable messages need to be body length + 1;
    // send length error
    let send = test.client_send_unreliable(0);
    assert!(send.is_err());

    let res = test.server_receive().unwrap();
    assert_eq!(0, res.length);

    test.receive_buffer[0] = 1;
    test.send_buffer[0] = 3;
    test.send_buffer[1] = 4;
    test.send_buffer[2] = 5;
    test.send_buffer[3] = 6;
    let sent = test.client_send_unreliable(4).unwrap();
    assert_eq!(5, sent.sent_len as usize);

    let res = test.server_receive().unwrap();
    assert_eq!(4, res.length);
    assert_eq!(3, test.receive_buffer[0]);
    assert_eq!(4, test.receive_buffer[1]);
    assert_eq!(5, test.receive_buffer[2]);
    assert_eq!(6, test.receive_buffer[3]);
}

#[test]
fn test_connect() {
    let address = NetworkAddress::localhost(100);
    let changed_address = NetworkAddress::localhost(200);

    let config = TachyonConfig::default();
    let mut server = Tachyon::create(config);
    server.set_identity(1, 10);

    assert!(!server.try_link_identity(address, 1, 11));

    assert!(server.try_link_identity(address, 1, 10));
    assert!(server.connections.contains_key(&address.key()));
    assert_eq!(2, server.get_channel_count(address));

    // connect when connected is valid
    assert!(server.try_link_identity(address, 1, 10));
    assert!(server.connections.contains_key(&address.key()));
    assert_eq!(2, server.get_channel_count(address));

    // connect with new address wipes out old connection
    assert!(server.try_link_identity(changed_address, 1, 10));
    assert!(server.connections.contains_key(&changed_address.key()));
    assert_eq!(2, server.get_channel_count(changed_address));

    assert!(!server.connections.contains_key(&address.key()));
    assert_eq!(0, server.get_channel_count(address));
}

#[test]
fn test_disconnect() {
    let address = NetworkAddress::localhost(100);

    let config = TachyonConfig::default();
    let mut server = Tachyon::create(config);
    server.set_identity(1, 10);
    server.try_link_identity(address, 1, 10);

    assert!(!server.try_unlink_identity(address, 1, 11));

    assert!(server.try_unlink_identity(address, 1, 10));
    assert!(!server.connections.contains_key(&address.key()));
    assert_eq!(0, server.get_channel_count(address));
}

#[test]
fn test_validate_and_update_connection() {
    let address = NetworkAddress::localhost(100);

    let config = TachyonConfig::default();
    let mut server = Tachyon::create(config);
    server.set_identity(1, 10);

    assert!(!server.validate_and_update_linked_connection(address));

    server.try_link_identity(address, 1, 10);
    assert!(server.validate_and_update_linked_connection(address));
}

#[test]
fn test_can_send() {
    let config = TachyonConfig {
        use_identity: 1,
        ..TachyonConfig::default()
    };

    let mut tach = Tachyon::create(config);

    tach.socket.is_server = true;
    assert!(tach.can_send());

    tach.socket.is_server = false;
    assert!(!tach.can_send());

    tach.identity.linked = 1;
    assert!(tach.can_send());
}

#[test]
fn test_link_flow() {
    let mut test = TachyonTest::default();
    test.client.config.use_identity = 1;
    test.client.identity = Identity {
        id: 1,
        session_id: 11,
        linked: 0,
    };

    test.server.config.use_identity = 1;
    test.server.set_identity(1, 10);

    test.connect();

    // linked
    test.server.set_identity(1, 11);
    test.client.update();
    let _ = test.server_receive();
    let _ = test.client_receive();
    assert!(test.client.identity.is_linked());

    // unlinked
    test.client
        .send_unlink_identity(test.client.identity.id, test.client.identity.session_id);
    let _ = test.server_receive();
    let _ = test.client_receive();
    assert!(!test.client.identity.is_linked());
}

#[test]
fn test_link_fail_flow() {
    let mut test = TachyonTest::default();
    test.client.config.use_identity = 1;
    test.client.identity = Identity {
        id: 1,
        session_id: 11,
        linked: 0,
    };

    test.server.config.use_identity = 1;
    test.server.set_identity(1, 10);

    test.connect();

    // link fails = bad session id
    test.client.update();
    let _ = test.server_receive();
    let _ = test.client_receive();
    assert!(!test.client.identity.is_linked());
}

#[test]
fn identity_gates_traffic() {
    let mut test = TachyonTest::default();
    test.client.config.use_identity = 1;
    test.client.identity = Identity { id: 1, session_id: 10, linked: 0 };
    test.server.config.use_identity = 1;
    test.server.set_identity(1, 10);
    test.connect();

    // before the link the client may not send, and the server looks at nothing
    assert_eq!(Err(TachyonSendError::Identity), test.client_send_reliable(1, 2));
    assert_eq!(Err(TachyonSendError::Identity), test.client_send_unreliable(2));
    test.client.config.use_identity = 0;
    test.client_send_unreliable(2).unwrap();
    test.client.config.use_identity = 1;
    assert_eq!(0, test.server_receive().unwrap().length);
    assert_eq!(0, test.server.get_channel_count(test.client_public));

    test.client.update();
    // a second request is not due yet
    test.client.update();
    assert_eq!(0, test.server_receive().unwrap().length);
    assert_eq!(2, test.server.get_channel_count(test.client_public));
    assert_eq!(
        Some(1),
        test.server.get_connection_by_identity(1).map(|c| c.identity.id)
    );
    assert_eq!(0, test.client_receive().unwrap().length);
    assert!(test.client.identity.is_linked());
    let kinds: Vec<EventKind> = test.server.take_events().iter().map(|e| e.kind).collect();
    assert_eq!(
        vec![EventKind::ConnectionAdded, EventKind::IdentityLinkRequested],
        kinds
    );
    let kinds: Vec<EventKind> = test.client.take_events().iter().map(|e| e.kind).collect();
    assert_eq!(vec![EventKind::ConnectionAdded, EventKind::IdentityLinked], kinds);

    test.send_buffer[0] = 9;
    test.client_send_reliable(1, 1).unwrap();
    let received = test.server_receive().unwrap();
    assert_eq!(1, received.length);
    assert_eq!(test.client_public, received.address);
    assert_eq!(TachyonReceiveType::Reliable { channel: 1 }, received.receive_type);
    assert_eq!(9, test.receive_buffer[0]);

    // the server answers through the identity
    let target = SendTarget { identity_id: 1, address: NetworkAddress::default() };
    test.server.send_to_target(2, target, &[8, 8], 2).unwrap();
    assert_eq!(2, test.client_receive().unwrap().length);
    let unknown = SendTarget { identity_id: 5, address: NetworkAddress::default() };
    assert_eq!(
        Err(TachyonSendError::Identity),
        test.server.send_to_target(2, unknown, &[8, 8], 2)
    );
}

#[test]
fn send_errors_in_order() {
    let address = NetworkAddress::test_address();
    let mut client = Tachyon::create(TachyonConfig::default());
    let peer = NetworkAddress::default();
    let data = [1u8, 2, 3];
    assert_eq!(Err(TachyonSendError::Length), client.send_reliable(1, peer, &data, 0));
    assert_eq!(Err(TachyonSendError::Channel), client.send_reliable(0, peer, &data, 3));
    assert_eq!(Err(TachyonSendError::Socket), client.send_reliable(1, peer, &data, 3));
    assert_eq!(Err(TachyonSendError::Unknown), client.send_unreliable(peer, &data, 3));
    assert!(client.connect(address));
    assert!(!client.connect(address));
    assert!(!client.bind(address));
    assert_eq!(Err(TachyonSendError::Channel), client.send_reliable(3, peer, &data, 3));
    assert_eq!(
        Err(TachyonSendError::Channel),
        client.send_reliable(1, NetworkAddress::localhost(1), &data, 3)
    );
    assert_eq!(Err(TachyonSendError::Length), client.send_unreliable(peer, &data, 0));
    assert!(!client.configure_channel(0, ChannelConfig::default_ordered()));
    assert!(!client.configure_channel(2, ChannelConfig::default_ordered()));
    assert!(client.configure_channel(3, ChannelConfig::default_ordered()));
    assert_eq!(2, client.get_channel_count(peer));
    assert!(client.get_channel(peer, 1).is_some());
    assert!(client.get_channel(peer, 3).is_none());
    assert_eq!(6, client.send_reliable(1, peer, &data, 2).unwrap().sent_len);
    let big = vec![0u8; 1200 * 1024];
    assert_eq!(
        Err(TachyonSendError::Fragment),
        client.send_reliable(1, peer, &big, big.len())
    );
}

#[test]
fn lost_frames_are_sent_again() {
    let mut test = TachyonTest::default();
    test.connect();
    for value in 1..=5u8 {
        test.send_buffer[0] = value;
        test.client_send_reliable(1, 1).unwrap();
        if value == 2 || value == 3 {
            // lost on the way
            while test.client.socket.take_sent().is_some() {}
        } else {
            carry(&mut test.client, test.client_public, &mut test.server, None);
        }
    }
    // the channel is ordered: only the first message comes out
    assert_eq!(1, test.server_receive().unwrap().length);
    assert_eq!(1, test.receive_buffer[0]);
    assert_eq!(0, test.server_receive().unwrap().length);

    // the server reports what it misses, the client sends it again
    test.server.update();
    assert_eq!(0, test.client_receive().unwrap().length);
    test.client.update();
    for value in 2..=5u8 {
        assert_eq!(1, test.server_receive().unwrap().length);
        assert_eq!(value, test.receive_buffer[0]);
    }
    assert_eq!(0, test.server_receive().unwrap().length);

    let stats = test.server.get_combined_stats();
    assert_eq!(5, stats.channel_stats.received);
    assert_eq!(2, stats.channel_stats.nacks_sent);
    let stats = test.client.get_combined_stats();
    assert_eq!(2, stats.channel_stats.resent);
    assert_eq!(2, stats.channel_stats.nacks_received);
    assert_eq!(5, stats.channel_stats.sent);
    assert_eq!(0, stats.packets_dropped);
}

#[test]
fn server_keeps_book_of_peers() {
    let mut test = TachyonTest::default();
    test.connect();
    test.client_send_unreliable(3).unwrap();
    let received = test.server_receive().unwrap();
    assert_eq!(TachyonReceiveType::Unreliable, received.receive_type);
    assert_eq!(test.client_public, received.address);
    assert_eq!(1, test.server.stats.unreliable_received);
    assert_eq!(1, test.client.stats.unreliable_sent);

    let peers = test.server.get_connections(10);
    assert_eq!(1, peers.len());
    assert_eq!(test.client_public, peers[0].address);
    assert!(test.server.get_connections(0).is_empty());
    assert!(test.server.get_connection(test.client_public).is_some());
    assert!(test.server.get_connection(NetworkAddress::localhost(1)).is_none());
    assert_eq!(0, test.server.get_connection_identity(test.client_public).id);
    assert_eq!(2, test.server.get_channel_count(test.client_public));

    // a datagram of unknown type is an error, a frame too short for its header is passed over
    test.server.socket.deliver(test.client_public, vec![77, 1, 0, 0]);
    assert_eq!(Err(TachyonReceiveError::Unknown), test.server.receive_loop(&mut test.receive_buffer));
    test.server.socket.deliver(test.client_public, vec![MESSAGE_TYPE_RELIABLE, 1]);
    assert_eq!(0, test.server.receive_loop(&mut test.receive_buffer).unwrap().length);
    // a frame for a channel that the peer does not have
    test.server.socket.deliver(test.client_public, vec![MESSAGE_TYPE_RELIABLE, 9, 1, 0, 5]);
    assert_eq!(Err(TachyonReceiveError::Channel), test.server.receive_loop(&mut test.receive_buffer));
}

fn send_receive(
    update: bool,
    send: bool,
    channel_id: u8,
    message_type: u8,
    client: &mut Tachyon,
    client_public: NetworkAddress,
    server: &mut Tachyon,
    server_address: NetworkAddress,
    send_buffer: &mut [u8],
    receive_buffer: &mut [u8],
    send_message_size: usize,
    client_remote: &mut NetworkAddress,
) {
    let client_address = NetworkAddress::default();

    if send {
        for _ in 0..4 {
            let target = SendTarget {
                address: client_address,
                identity_id: 0,
            };

            let send_result = if message_type == MESSAGE_TYPE_RELIABLE {
                client.send_to_target(channel_id, target, send_buffer, send_message_size)
            } else {
                client.send_to_target(0, target, send_buffer, send_message_size)
            };

            assert!(send_result.is_ok());
            assert!(send_result.unwrap().sent_len > 0);
        }
    }

    carry(client, client_public, server, None);
    let receive_result = server.receive_loop(receive_buffer);
    assert!(receive_result.is_ok());
    let receive_result = receive_result.unwrap();

    if send && receive_result.length > 0 {
        assert!(receive_result.address.port > 0);
        client_remote.copy_from(receive_result.address);
        if client_remote.port > 0 {
            let target = SendTarget {
                address: *client_remote,
                identity_id: 0,
            };
            if message_type == MESSAGE_TYPE_RELIABLE {
                let _ = server.send_to_target(channel_id, target, send_buffer, send_message_size);
            } else {
                let _ = server.send_to_target(0, target, send_buffer, send_message_size);
            }
        }
    }

    for _ in 0..100 {
        let receive_result = server.receive_loop(receive_buffer).unwrap();
        if receive_result.length == 0 {
            break;
        }
    }

    carry(server, server_address, client, Some(client_public));
    for _ in 0..100 {
        let receive_result = client.receive_loop(receive_buffer).unwrap();
        if receive_result.length == 0 {
            break;
        }
    }

    if update {
        client.update();
        server.update();
    }
}

#[test]
fn general_stress() {
    let address = NetworkAddress::test_address();
    let client_address = NetworkAddress::default();
    let client_public = NetworkAddress::mock_client_address();

    let buffer_size = 64 * 1024;
    let drop_reliable_only = 0;
    let client_drop_chance = 0;
    let server_drop_chance = 0;
    let loop_count = 2000; // inner loop sends 4 messages
    let channel_id = 1;
    let message_type = MESSAGE_TYPE_RELIABLE;
    let send_message_size = 384;

    let mut send_buffer: Vec<u8> = vec![0; buffer_size];
    let mut receive_buffer: Vec<u8> = vec![0; buffer_size];

    let config = TachyonConfig {
        drop_packet_chance: server_drop_chance,
        drop_reliable_only,
        ..TachyonConfig::default()
    };

    let mut server = Tachyon::create(config);
    server.bind(address);

    let config = TachyonConfig {
        drop_packet_chance: client_drop_chance,
        drop_reliable_only,
        ..TachyonConfig::default()
    };

    let mut client = Tachyon::create(config);
    client.connect(address);

    let mut client_remote = NetworkAddress::default();
    for _ in 0..loop_count {
        send_receive(
            true,
            true,
            channel_id,
            message_type,
            &mut client,
            client_public,
            &mut server,
            address,
            &mut send_buffer,
            &mut receive_buffer,
            send_message_size,
            &mut client_remote,
        );
    }

    for _ in 0..200 {
        send_receive(
            true,
            false,
            channel_id,
            message_type,
            &mut client,
            client_public,
            &mut server,
            address,
            &mut send_buffer,
            &mut receive_buffer,
            send_message_size,
            &mut client_remote,
        );
    }

    let channel = client.get_channel(client_address, channel_id).unwrap();
    channel.receiver.publish();
    channel.receiver.set_resend_list();
    channel.update_stats();
    println!(
        "CLIENT {0:?} current_seq:{1} last_seq:{2}, missing:{3}",
        channel.stats,
        channel.receiver.current_sequence,
        channel.receiver.last_sequence,
        channel.receiver.resend_list.len()
    );
    assert_eq!(0, channel.receiver.resend_list.len());
    assert_eq!(8000, channel.stats.sent);

    if let Some(channel) = server.get_channel(client_remote, channel_id) {
        channel.receiver.publish();
        channel.receiver.set_resend_list();
        channel.update_stats();
        println!(
            "SERVER {0:?} current_seq:{1} last_seq:{2} missing:{3}",
            channel.stats,
            channel.receiver.current_sequence,
            channel.receiver.last_sequence,
            channel.receiver.resend_list.len()
        );
        assert_eq!(8000, channel.stats.received);
        assert_eq!(8000, channel.receiver.current_sequence);
        assert_eq!(0, channel.stats.skipped_sequences);
    }

    println!(
        "Dropped client:{0} server:{1}",
        client.stats.packets_dropped, server.stats.packets_dropped
    );
    assert_eq!(client_public, client_remote);
}

#[test]
fn many_clients() {
    let address = NetworkAddress::test_address();

    let client_count = 200;
    let loop_count = 4;
    let channel_id = 1;
    let message_type = MESSAGE_TYPE_RELIABLE;

    let msize = 384;
    let mut send_buffer: Vec<u8> = vec![0; 1024];
    let mut receive_buffer: Vec<u8> = vec![0; 4096];

    let config = TachyonConfig {
        drop_packet_chance: 0,
        ..TachyonConfig::default()
    };

    let mut server = Tachyon::create(config);
    server.bind(address);

    let mut clients: Vec<Tachyon> = Vec::new();

    for _ in 0..client_count {
        let mut client = Tachyon::create(config);
        client.connect(address);
        clients.push(client);
    }

    let mut port = 20000;
    for client in &mut clients {
        port += 1;
        let mut client_remote = NetworkAddress::default();
        for _ in 0..loop_count {
            send_receive(
                false,
                true,
                channel_id,
                message_type,
                client,
                NetworkAddress::localhost(port),
                &mut server,
                address,
                &mut send_buffer,
                &mut receive_buffer,
                msize,
                &mut client_remote,
            );
        }
    }

    for _ in 0..10000 {
        let receive_result = server.receive_loop(&mut receive_buffer);
        if receive_result.is_err() || receive_result.unwrap().length == 0 {
            break;
        }
    }

    for _ in 0..100 {
        server.update();
    }
    let stats = server.get_combined_stats();
    println!("Server CombinedStats:{0:?}", stats);
    assert_eq!(200 * 16, stats.channel_stats.received);
    assert_eq!(200, server.get_connections(1000).len());
}

#[test]
fn each_datagram_has_its_outcome() {
    let mut test = TachyonTest::default();
    assert_eq!(Err(ReceiveError::Error), test.server.receive_from_socket());
    test.connect();
    assert_eq!(Err(ReceiveError::Empty), test.server.receive_from_socket());
    let from = test.client_public;

    test.server.socket.deliver(from, vec![0, 7, 7]);
    assert_eq!(
        Ok(ReceiveSuccess {
            network_address: from,
            receive_type: ReceiveType::Unreliable { received_len: 3 },
        }),
        test.server.receive_from_socket()
    );
    test.server.socket.deliver(from, vec![]);
    assert_eq!(Err(ReceiveError::Retry), test.server.receive_from_socket());
    test.server.socket.deliver(from, vec![1, 5, 1, 0, 9]);
    assert_eq!(Err(ReceiveError::ChannelError), test.server.receive_from_socket());
    test.server.socket.deliver(from, vec![1, 1, 1, 0, 9]);
    assert_eq!(
        Ok(ReceiveSuccess {
            network_address: from,
            receive_type: ReceiveType::Reliable { channel_id: 1 },
        }),
        test.server.receive_from_socket()
    );
    // the same frame again is a duplicate
    test.server.socket.deliver(from, vec![1, 1, 1, 0, 9]);
    assert_eq!(Err(ReceiveError::Retry), test.server.receive_from_socket());
    // a reliable frame that says it carries a NACK and is too short for one
    test.server.socket.deliver(from, vec![5, 1, 2, 0, 9]);
    assert_eq!(Err(ReceiveError::Retry), test.server.receive_from_socket());
    test.server.socket.deliver(from, vec![3, 1, 2, 0]);
    assert_eq!(Err(ReceiveError::Retry), test.server.receive_from_socket());
    test.server.socket.deliver(from, vec![200, 1, 3, 0]);
    assert_eq!(Err(ReceiveError::Error), test.server.receive_from_socket());
    // the handshake means nothing where identities are not in use
    test.server.socket.deliver(from, vec![6, 1, 0, 0, 0, 10, 0, 0, 0]);
    assert_eq!(Err(ReceiveError::Error), test.server.receive_from_socket());

    // with loss injection at its highest every datagram is dropped and counted
    test.server.config.drop_packet_chance = 100;
    test.server.socket.deliver(from, vec![0, 7]);
    assert_eq!(Err(ReceiveError::Retry), test.server.receive_from_socket());
    assert_eq!(1, test.server.stats.packets_dropped);
    assert_eq!(Err(ReceiveError::Empty), test.server.receive_from_socket());

    let mut buffer = vec![0u8; 2];
    test.server.config.drop_packet_chance = 0;
    test.server.socket.deliver(from, vec![0, 4, 5, 6]);
    let received = test.server.receive_loop(&mut buffer).unwrap();
    // what does not fit is cut off
    assert_eq!(2, received.length);
    assert_eq!(vec![4, 5], buffer);
    assert_eq!(1, test.server.get_combined_stats().channel_stats.received);
}

#[test]
fn receive_steps_say_how_they_ended() {
    let mut test = TachyonTest::default();
    test.connect();
    let from = test.client_public;
    let mut buffer = vec![0u8; 64];

    assert!(matches!(test.server.receive_step(&mut buffer), ReceiveStep::Drained));

    // a placeholder hands nothing over
    test.server.socket.deliver(from, vec![1, 1, 1, 0, 9]);
    test.server.socket.deliver(from, vec![3, 1, 3, 0]);
    test.server.socket.deliver(from, vec![0, 4, 5]);
    test.server.socket.deliver(from, vec![200, 1, 4, 0]);
    let step = test.server.receive_step(&mut buffer);
    assert!(matches!(
        step,
        ReceiveStep::Done(Ok(TachyonReceiveSuccess {
            receive_type: TachyonReceiveType::Reliable { channel: 1 },
            length: 1,
            address: _,
        }))
    ));
    assert_eq!(9, buffer[0]);
    assert!(matches!(test.server.receive_step(&mut buffer), ReceiveStep::Again));
    let step = test.server.receive_step(&mut buffer);
    assert!(matches!(
        step,
        ReceiveStep::Done(Ok(TachyonReceiveSuccess {
            receive_type: TachyonReceiveType::Unreliable,
            length: 2,
            address: _,
        }))
    ));
    assert_eq!(vec![4, 5], buffer[..2].to_vec());
    assert!(matches!(
        test.server.receive_step(&mut buffer),
        ReceiveStep::Done(Err(TachyonReceiveError::Unknown))
    ));
    assert!(matches!(test.server.receive_step(&mut buffer), ReceiveStep::Drained));

    // an endpoint without a port cannot receive
    let mut closed = Tachyon::create(TachyonConfig::default());
    assert!(matches!(
        closed.receive_step(&mut buffer),
        ReceiveStep::Done(Err(TachyonReceiveError::Unknown))
    ));
}

#[test]
fn loss_injection_can_spare_unreliable_frames() {
    let mut test = TachyonTest::default();
    test.connect();
    let from = test.client_public;
    test.server.config.drop_packet_chance = 100;
    test.server.config.drop_reliable_only = 1;

    test.server.socket.deliver(from, vec![0, 7]);
    test.server.socket.deliver(from, vec![1, 1, 1, 0, 9]);
    assert_eq!(
        Ok(ReceiveSuccess {
            network_address: from,
            receive_type: ReceiveType::Unreliable { received_len: 2 },
        }),
        test.server.receive_from_socket()
    );
    assert_eq!(0, test.server.stats.packets_dropped);
    assert_eq!(Err(ReceiveError::Retry), test.server.receive_from_socket());
    assert_eq!(1, test.server.stats.packets_dropped);
    assert_eq!(Err(ReceiveError::Empty), test.server.receive_from_socket());

    // at a chance of zero nothing is lost, whatever is rolled
    test.server.config.drop_packet_chance = 0;
    for sequence in 1..=50u8 {
        test.server.socket.deliver(from, vec![1, 1, sequence, 0, 9]);
        assert!(test.server.receive_from_socket().is_ok());
    }
    assert_eq!(1, test.server.stats.packets_dropped);
}
