use tachyon::int_buffer::{IntBuffer, LengthPrefixed};
use tachyon::network_address::NetworkAddress;
use tachyon::pool::{OutBuffer, Pool, SendTarget};
use tachyon::{Tachyon, TachyonConfig, TachyonSendError, TachyonSendSuccess};

struct TachyonTestClient {
    client_address: NetworkAddress,
    public_address: NetworkAddress,
    client: Tachyon,
    address: NetworkAddress,
    send_buffer: Vec<u8>,
}

impl TachyonTestClient {
    fn create(address: NetworkAddress) -> Self {
        let config = TachyonConfig::default();

        Self {
            client_address: NetworkAddress::default(),
            public_address: NetworkAddress::localhost(address.port + 10000),
            address,
            client: Tachyon::create(config),
            send_buffer: vec![0; 4096],
        }
    }

    fn connect(&mut self) {
        assert!(self.client.connect(self.address), "connect failed");
    }

    fn client_send_reliable(
        &mut self,
        channel_id: u8,
        length: usize,
    ) -> Result<TachyonSendSuccess, TachyonSendError> {
        let target = SendTarget {
            address: self.client_address,
            identity_id: 0,
        };

        self.client
            .send_to_target(channel_id, target, &self.send_buffer, length)
    }

    /// Puts on the wire what the client has sent.
    fn carry_to(&mut self, pool: &mut Pool, server_id: u16) {
        let server = pool.get_server(server_id).unwrap();
        while let Some(datagram) = self.client.socket.take_sent() {
            server.socket.deliver(self.public_address, datagram.data);
        }
    }
}

#[test]
fn test_blocking_receive() {
    let mut pool = Pool::create(40, 1024 * 1024, 1024 * 1024 * 4);
    let config = TachyonConfig::default();
    pool.create_server(config, NetworkAddress::localhost(8001), 1);
    pool.create_server(config, NetworkAddress::localhost(8002), 2);
    pool.create_server(config, NetworkAddress::localhost(8003), 3);

    let mut id = 4;
    for i in 0..20 {
        pool.create_server(config, NetworkAddress::localhost(8004 + i), id);
        id += 1;
    }

    let mut client1 = TachyonTestClient::create(NetworkAddress::localhost(8001));
    let mut client2 = TachyonTestClient::create(NetworkAddress::localhost(8002));
    let mut client3 = TachyonTestClient::create(NetworkAddress::localhost(8003));
    client1.connect();
    client2.connect();
    client3.connect();

    let count: usize = 2000;
    let msg_len = 64;
    let msg_value = 234_873;

    for _ in 0..count {
        let mut writer = IntBuffer { index: 0 };
        writer.write_u32(msg_value, &mut client1.send_buffer);
        let _ = client1.client_send_reliable(1, msg_len);

        let mut writer = IntBuffer { index: 0 };
        writer.write_u32(msg_value, &mut client2.send_buffer);
        let _ = client2.client_send_reliable(1, msg_len);

        let mut writer = IntBuffer { index: 0 };
        writer.write_u32(msg_value, &mut client3.send_buffer);
        let _ = client3.client_send_reliable(1, msg_len);
    }
    client1.carry_to(&mut pool, 1);
    client2.carry_to(&mut pool, 2);
    client3.carry_to(&mut pool, 3);

    pool.receive_blocking_out_buffer();

    // should have 3 out buffers to read
    let mut receive_buffer: Vec<u8> = vec![0; 1024 * 1024 * 4];
    let res = pool.get_next_out_buffer(&mut receive_buffer);
    println!("bytes_written:{0} count:{1}", res.bytes_written, res.count);

    // channel + address + length + body
    let bytes_written = count * msg_len + count * 15;
    assert_eq!(res.bytes_written, bytes_written as u32);
    assert_eq!(count, res.count as usize);

    let mut reader = LengthPrefixed::default();
    for _ in 0..res.count {
        let (_channel, _address, range) = reader.read(&receive_buffer).unwrap();
        let len = range.end - range.start;

        assert_eq!(msg_len, len);
        let slice = &receive_buffer[range];

        let mut value_reader = IntBuffer { index: 0 };
        let value = value_reader.read_u32(slice);
        assert_eq!(msg_value, value);
    }

    let res = pool.get_next_out_buffer(&mut receive_buffer);
    assert_eq!(res.bytes_written, bytes_written as u32);
    assert_eq!(count, res.count as usize);

    let res = pool.get_next_out_buffer(&mut receive_buffer);
    assert_eq!(res.bytes_written, bytes_written as u32);
    assert_eq!(count, res.count as usize);

    let res = pool.get_next_out_buffer(&mut receive_buffer);
    assert_eq!(res.bytes_written, 0);
    assert_eq!(0, res.count as usize);

    // servers and arrays returned
    assert_eq!(pool.max_servers as usize, pool.out_buffers.len());
    assert_eq!(23, pool.servers.len());
}

#[test]
fn pool_test_receive() {
    let mut pool = Pool::create(4, 1024 * 1024, 1024 * 1024 * 4);
    let config = TachyonConfig::default();
    pool.create_server(config, NetworkAddress::localhost(8001), 1);
    pool.create_server(config, NetworkAddress::localhost(8002), 2);
    pool.create_server(config, NetworkAddress::localhost(8003), 3);

    let mut client1 = TachyonTestClient::create(NetworkAddress::localhost(8001));
    let mut client2 = TachyonTestClient::create(NetworkAddress::localhost(8002));
    let mut client3 = TachyonTestClient::create(NetworkAddress::localhost(8003));
    client1.connect();
    client2.connect();
    client3.connect();

    let count = 200;
    let msg_len = 64;
    let msg_value = 234_873;
    for _ in 0..count {
        let mut writer = IntBuffer { index: 0 };
        writer.write_u32(msg_value, &mut client1.send_buffer);
        let _ = client1.client_send_reliable(1, msg_len);

        let mut writer = IntBuffer { index: 0 };
        writer.write_u32(msg_value, &mut client2.send_buffer);
        let _ = client2.client_send_reliable(1, msg_len);

        let mut writer = IntBuffer { index: 0 };
        writer.write_u32(msg_value, &mut client3.send_buffer);
        let _ = client3.client_send_reliable(1, msg_len);
    }
    client1.carry_to(&mut pool, 1);
    client2.carry_to(&mut pool, 2);
    client3.carry_to(&mut pool, 3);

    let receiving = pool.receive();
    assert!(receiving);

    // should return false, all servers moved
    let receiving = pool.receive();
    assert!(!receiving);

    let res = pool.finish_receive();
    assert_eq!(3, res.0);
    assert_eq!(count * 3, res.1);
    assert_eq!(count * 3, pool.published.len() as i32);

    // nothing to finish
    let res = pool.finish_receive();
    assert_eq!(0, res.0);
    assert_eq!(0, res.1);
}

#[test]
fn pool_publishes_what_was_sent() {
    let mut pool = Pool::create(2, 4096, 4096);
    let config = TachyonConfig::default();
    assert!(pool.create_server(config, NetworkAddress::localhost(8001), 1));
    assert!(!pool.create_server(config, NetworkAddress::localhost(8009), 1));
    assert!(pool.create_server(config, NetworkAddress::localhost(8002), 2));
    assert_eq!(8001, pool.get_server(1).unwrap().socket.address.port);
    assert!(pool.get_server(3).is_none());

    let mut client = TachyonTestClient::create(NetworkAddress::localhost(8002));
    client.connect();
    client.send_buffer[..3].copy_from_slice(&[7, 8, 9]);
    client.client_send_reliable(2, 3).unwrap();
    client.carry_to(&mut pool, 2);

    pool.receive_blocking();
    assert_eq!(Some(vec![7, 8, 9]), pool.take_published());
    assert_eq!(None, pool.take_published());

    // the index knows the peer now, and the pool answers through its endpoint
    assert_eq!(0, pool.get_server_having_connection(client.public_address));
    pool.build_connection_maps();
    assert_eq!(2, pool.get_server_having_connection(client.public_address));
    assert_eq!(0, pool.get_server_having_connection(NetworkAddress::localhost(1)));
    assert_eq!(0, pool.get_server_having_identity(1));
    let target = SendTarget { identity_id: 0, address: client.public_address };
    assert_eq!(
        8,
        pool.send_to_target(1, target, &[1, 2, 3, 4], 4).unwrap().sent_len
    );
    let stranger = SendTarget { identity_id: 0, address: NetworkAddress::localhost(1) };
    assert_eq!(
        TachyonSendSuccess::default(),
        pool.send_to_target(1, stranger, &[1], 1).unwrap()
    );
    let sent = pool.get_server(2).unwrap().socket.take_sent().unwrap();
    assert_eq!(client.public_address, sent.address);
    assert_eq!(vec![1, 1, 1, 0, 1, 2, 3, 4], sent.data);

    // the endpoint without peers is the one to take the next
    assert_eq!(1, pool.get_available_server().unwrap().id);
    pool.set_identity(1, 5, 6, 1);
    assert_eq!(5, pool.get_server(1).unwrap().identity.id);
    pool.set_identity(1, 8, 9, 0);
    assert_eq!(Some(&9), pool.get_server(1).unwrap().identities.get(&8));
}

#[test]
fn out_buffer_takes_what_fits() {
    let mut server = Tachyon::create(TachyonConfig::default());
    assert!(server.bind(NetworkAddress::localhost(8001)));
    let mut client = TachyonTestClient::create(NetworkAddress::localhost(8001));
    client.connect();
    for value in 1..=3u8 {
        client.send_buffer[0] = value;
        client.client_send_reliable(1, 10).unwrap();
    }
    while let Some(datagram) = client.client.socket.take_sent() {
        server.socket.deliver(client.public_address, datagram.data);
    }
    // room for two records of 25 bytes
    let mut out_buffer = OutBuffer { data: vec![0; 60], bytes_written: 9, count: 9 };
    let mut receive_buffer: Vec<u8> = vec![0; 64];
    Pool::receive_server_into_out_buffer(&mut server, &mut out_buffer, &mut receive_buffer);
    assert_eq!(2, out_buffer.count);
    assert_eq!(50, out_buffer.bytes_written);
    let mut reader = LengthPrefixed::default();
    let (channel, address, range) = reader.read(&out_buffer.data).unwrap();
    assert_eq!(1, channel);
    assert_eq!(client.public_address, address);
    assert_eq!(15..25, range);
    assert_eq!(1, out_buffer.data[15]);
    let (_, _, range) = reader.read(&out_buffer.data).unwrap();
    assert_eq!(2, out_buffer.data[range.start]);
}

#[test]
fn stream_ends_where_a_record_does_not_fit() {
    let mut server = Tachyon::create(TachyonConfig::default());
    assert!(server.bind(NetworkAddress::localhost(8001)));
    let from = NetworkAddress::localhost(9001);
    server.socket.deliver(from, vec![0, 1, 2, 3]);
    server.socket.deliver(from, vec![0, 4, 5, 6, 7]);
    server.socket.deliver(from, vec![0, 8]);

    // room for the first record, 15 + 3 bytes, and not for the second
    let mut out_buffer = OutBuffer { data: vec![0xAA; 36], bytes_written: 0, count: 0 };
    let mut receive_buffer = vec![0u8; 64];
    Pool::receive_server_into_out_buffer(&mut server, &mut out_buffer, &mut receive_buffer);
    assert_eq!(1, out_buffer.count);
    assert_eq!(18, out_buffer.bytes_written);
    let mut reader = LengthPrefixed::default();
    let (channel, address, range) = reader.read(&out_buffer.data).unwrap();
    assert_eq!(0, channel);
    assert_eq!(from, address);
    assert_eq!(vec![1, 2, 3], out_buffer.data[range].to_vec());
    // behind the record the stream is as it was
    assert!(out_buffer.data[18..].iter().all(|b| *b == 0xAA));

    // the message that did not fit is gone; the next one is still there
    let mut queue = std::collections::VecDeque::new();
    assert_eq!(1, Pool::receive_server(&mut server, &mut queue, &mut receive_buffer));
    assert_eq!(Some(vec![8]), queue.pop_front());
}

#[test]
fn a_pool_takes_as_many_endpoints_as_it_was_made_for() {
    let mut pool = Pool::create(2, 1024, 1024);
    let config = TachyonConfig::default();
    assert!(pool.create_server(config, NetworkAddress::localhost(8001), 1));
    assert!(!pool.create_server(config, NetworkAddress::localhost(8004), 1));
    assert!(pool.create_server(config, NetworkAddress::localhost(8002), 2));
    assert!(!pool.create_server(config, NetworkAddress::localhost(8003), 3));
    assert_eq!(2, pool.servers.len());

    // a receive moves every endpoint to those in use and loses none
    assert!(pool.receive());
    assert!(pool.servers.is_empty());
    assert_eq!(2, pool.servers_in_use.len());
    assert!(!pool.receive());
    // those in use count: the pool is still full
    assert!(!pool.create_server(config, NetworkAddress::localhost(8003), 3));
    assert_eq!((2, 0), pool.finish_receive());
    assert_eq!(2, pool.servers.len());
    assert!(pool.servers.contains_key(&1) && pool.servers.contains_key(&2));
    assert_eq!(0, pool.servers_in_use.len());
    assert_eq!(2, pool.receive_queue.len());
    assert_eq!(2, pool.receive_buffers.len());
}

#[test]
fn a_new_pool_holds_a_queue_and_buffers_for_each_endpoint() {
    let mut pool = Pool::create(3, 16, 32);
    assert_eq!(3, pool.receive_queue.len());
    assert_eq!(3, pool.receive_buffers.len());
    assert_eq!(3, pool.out_buffers.len());
    assert_eq!(0, pool.servers_in_use.len());
    assert_eq!(Some(vec![0u8; 16]), pool.receive_buffers.pop());
    let stream = pool.out_buffers.pop().unwrap();
    assert_eq!(vec![0u8; 32], stream.data);
    assert_eq!(0, stream.count);
    assert_eq!(0, stream.bytes_written);
    assert!(pool.receive_queue.pop().unwrap().is_empty());
    // nothing to fetch, nothing to finish
    let mut buffer = vec![0u8; 64];
    let counts = pool.get_next_out_buffer(&mut buffer);
    assert_eq!(0, counts.count);
    assert_eq!(0, counts.bytes_written);
    assert!(!pool.receive());
    assert_eq!((0, 0), pool.finish_receive());
}
