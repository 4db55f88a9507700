use tachyon::connection_header::ConnectionHeader;
use tachyon::header::{
    Header, MESSAGE_TYPE_FRAGMENT, MESSAGE_TYPE_RELIABLE, MESSAGE_TYPE_RELIABLE_WITH_NACK,
    TACHYON_FRAGMENTED_HEADER_SIZE, TACHYON_HEADER_SIZE, TACHYON_NACKED_HEADER_SIZE,
};
use tachyon::int_buffer::{copy_bytes, IntBuffer, LengthPrefixed};
use tachyon::nack::{varint_size, Nack};
use tachyon::network_address::NetworkAddress;

#[test]
fn test_flagged() {
    let mut nack = Nack {
        start_sequence: 33,
        ..Nack::default()
    };

    nack.set_flagged(32);
    assert!(nack.is_flagged(32));
    assert!(nack.get_bits(0));

    nack.set_flagged(1);
    assert!(nack.get_bits(31));
    assert!(nack.is_flagged(1));

    nack.set_flagged(34);
    assert!(!nack.is_flagged(34));
}

#[test]
fn test_flagged_wrapped() {
    let mut nack = Nack {
        start_sequence: 0,
        ..Nack::default()
    };

    nack.set_flagged(65534);
    assert!(nack.is_flagged(65534));

    nack.set_flagged(65534 - 31);
    assert!(nack.is_flagged(65534 - 31));

    nack.set_flagged(2);
    assert!(!nack.is_flagged(2));
}

fn create_full_nack(start: u16) -> Nack {
    Nack {
        start_sequence: start,
        flags: u32::MAX,
        ..Nack::default()
    }
}

#[test]
fn test_get_nacked() {
    let mut nack = create_full_nack(1);

    let mut sequences: Vec<u16> = Vec::new();
    nack.get_nacked(&mut sequences);
    assert_eq!(33, sequences.len());

    nack.set_bits(4, false);
    nack.set_bits(31, false);

    let mut sequences: Vec<u16> = Vec::new();
    nack.get_nacked(&mut sequences);
    assert_eq!(31, sequences.len());
}

#[test]
fn test_write_read() {
    let mut data: Vec<u8> = vec![0; 1024];
    let mut sequences_out: Vec<u16> = Vec::new();

    let nacks = vec![create_full_nack(1), create_full_nack(34)];

    Nack::write_varint(&nacks, &mut data[..], 0);
    Nack::read_varint(&mut sequences_out, &data[..], 0);

    assert_eq!(66, sequences_out.len());
}

#[test]
fn nack_names_start_and_flagged_sequences_in_order() {
    let nack = Nack {
        start_sequence: 2,
        flags: 0b1011,
        ..Nack::default()
    };
    let mut sequences: Vec<u16> = vec![9];
    nack.get_nacked(&mut sequences);
    // bit 0 is one before the start, bit 1 two before, bit 3 four before
    assert_eq!(vec![9, 2, 1, 0, 65533], sequences);
    assert!(nack.is_nacked(2));
    assert!(nack.is_nacked(65533));
    assert!(!nack.is_nacked(65534));
    let mut flagged: Vec<u16> = Vec::new();
    nack.get_flagged(&mut flagged);
    assert_eq!(vec![1, 0, 65533], flagged);
}

#[test]
fn nack_bits_set_and_cleared() {
    let mut nack = Nack::default();
    nack.set_bits(0, true);
    nack.set_bits(31, true);
    assert_eq!(0x8000_0001, nack.flags);
    assert!(nack.get_bits(31));
    assert!(!nack.get_bits(30));
    nack.set_bits(31, false);
    assert_eq!(1, nack.flags);
}

#[test]
fn varint_bytes_are_exact() {
    let nacks = vec![
        Nack { start_sequence: 240, flags: 241, ..Nack::default() },
        Nack { start_sequence: 2031, flags: 2032, ..Nack::default() },
        Nack { start_sequence: 65534, flags: 67567, ..Nack::default() },
        Nack { start_sequence: 1, flags: 67568, ..Nack::default() },
        Nack { start_sequence: 7, flags: 16_777_215, ..Nack::default() },
        Nack { start_sequence: 8, flags: 16_777_216, ..Nack::default() },
        Nack { start_sequence: 9, flags: u32::MAX, ..Nack::default() },
    ];
    let mut data: Vec<u8> = vec![0xEE; 64];
    let end = Nack::write_varint(&nacks, &mut data[..], 2);
    let expected: Vec<u8> = vec![
        7, // count
        240, 241, 1, // 240, 241
        247, 255, 248, 0, 0, // 2031, 2032
        248, 248, 14, 248, 255, 255, // 65534, 67567
        1, 249, 0xF0, 0x07, 0x01, // 1, 67568
        7, 249, 255, 255, 255, // 7, 16777215
        8, 250, 0, 0, 0, 1, // 8, 16777216
        9, 250, 255, 255, 255, 255, // 9, u32::MAX
    ];
    assert_eq!(2 + expected.len() as u64, end);
    assert_eq!(expected.len(), Nack::varint_size(&nacks));
    assert_eq!(&expected[..], &data[2..end as usize]);
    assert_eq!(0xEE, data[0]);
    assert_eq!(0xEE, data[1]);
    assert_eq!(0xEE, data[end as usize]);

    let mut sequences: Vec<u16> = Vec::new();
    Nack::read_varint(&mut sequences, &data[..], 2);
    let mut direct: Vec<u16> = Vec::new();
    for nack in &nacks {
        nack.get_nacked(&mut direct);
    }
    assert_eq!(direct, sequences);
    assert_eq!(1, varint_size(240));
    assert_eq!(2, varint_size(241));
    assert_eq!(3, varint_size(2032));
    assert_eq!(4, varint_size(67568));
    assert_eq!(5, varint_size(16_777_216));
}

#[test]
fn varint_read_stops_at_garbage() {
    // count says three, the second entry starts with a byte that opens no integer
    let data: Vec<u8> = vec![3, 5, 0, 251, 1, 1];
    let mut sequences: Vec<u16> = Vec::new();
    Nack::read_varint(&mut sequences, &data[..], 0);
    assert_eq!(vec![5], sequences);

    // the bytes end inside the first entry
    let data: Vec<u8> = vec![2, 250, 1, 2];
    let mut sequences: Vec<u16> = Vec::new();
    Nack::read_varint(&mut sequences, &data[..], 0);
    assert!(sequences.is_empty());

    // a start that is no 16-bit value ends the reading
    let data: Vec<u8> = vec![1, 249, 0, 0, 1, 0];
    let mut sequences: Vec<u16> = Vec::new();
    Nack::read_varint(&mut sequences, &data[..], 0);
    assert!(sequences.is_empty());

    // a position behind the bytes reads nothing
    let mut sequences: Vec<u16> = Vec::new();
    Nack::read_varint(&mut sequences, &data[..], 100);
    assert!(sequences.is_empty());

    // an empty list writes nothing
    let mut data: Vec<u8> = vec![1; 4];
    assert_eq!(0, Nack::write_varint(&[], &mut data[..], 1));
    assert_eq!(vec![1, 1, 1, 1], data);
}

#[test]
fn fixed_nack_list_round_trip() {
    let nacks = vec![
        Nack { start_sequence: 0x1234, flags: 0x0A0B_0C0D, ..Nack::default() },
        Nack { start_sequence: 3, flags: 1, ..Nack::default() },
    ];
    let mut data: Vec<u8> = vec![0; 32];
    let end = Nack::write(&nacks, &mut data[..], 1);
    assert_eq!(14, end);
    assert_eq!(
        &[0u8, 2, 0x34, 0x12, 0x0D, 0x0C, 0x0B, 0x0A, 3, 0, 1, 0, 0, 0, 0][..],
        &data[..15]
    );
    let mut sequences: Vec<u16> = Vec::new();
    Nack::read(&mut sequences, &data[..], 1);
    let mut direct: Vec<u16> = Vec::new();
    nacks[0].get_nacked(&mut direct);
    nacks[1].get_nacked(&mut direct);
    assert_eq!(direct, sequences);
    assert_eq!(vec![3, 2], direct[direct.len() - 2..].to_vec());

    // entries that do not lie whole inside the bytes are not read
    let mut sequences: Vec<u16> = Vec::new();
    Nack::read(&mut sequences, &data[..10], 1);
    let mut first: Vec<u16> = Vec::new();
    nacks[0].get_nacked(&mut first);
    assert_eq!(first, sequences);
    assert_eq!(0, Nack::write(&[], &mut data[..], 0));
}

#[test]
fn single_nack_round_trip() {
    let nack = Nack { start_sequence: 300, flags: 5, ..Nack::default() };
    let mut data: Vec<u8> = vec![0; 16];
    assert_eq!(10, Nack::write_single(&nack, &mut data[..], 4));
    assert_eq!(&[0x2C, 0x01, 5, 0, 0, 0][..], &data[4..10]);
    let mut sequences: Vec<u16> = Vec::new();
    Nack::read_single(&mut sequences, &data[..], 4);
    assert_eq!(vec![300, 299, 297], sequences);

    // a start of zero is a start like any other
    let zero = Nack { start_sequence: 0, flags: 0b101, ..Nack::default() };
    Nack::write_single(&zero, &mut data[..], 4);
    let mut sequences: Vec<u16> = vec![9];
    Nack::read_single(&mut sequences, &data[..], 4);
    assert_eq!(vec![9, 0, 65534, 65532], sequences);
    let mut direct: Vec<u16> = vec![9];
    zero.get_nacked(&mut direct);
    assert_eq!(direct, sequences);

    // bytes that end before the NACK does carry none
    let mut sequences: Vec<u16> = Vec::new();
    Nack::read_single(&mut sequences, &data[..9], 4);
    assert!(sequences.is_empty());
}

#[test]
fn header_forms() {
    let header = Header {
        message_type: MESSAGE_TYPE_RELIABLE_WITH_NACK,
        channel: 7,
        sequence: 0x0102,
        start_sequence: 0x0304,
        flags: 0x0506_0708,
        ..Header::default()
    };
    let mut buffer: Vec<u8> = vec![0xAA; 12];
    header.write_nacked(&mut buffer);
    assert_eq!(vec![5, 7, 2, 1, 4, 3, 8, 7, 6, 5, 0xAA, 0xAA], buffer);
    let read = Header::read(&buffer);
    assert_eq!(MESSAGE_TYPE_RELIABLE_WITH_NACK, read.message_type);
    assert_eq!(7, read.channel);
    assert_eq!(0x0102, read.sequence);
    assert_eq!(0, read.start_sequence);
    assert_eq!(0, read.flags);

    let mut buffer: Vec<u8> = vec![0xAA; 6];
    Header { message_type: MESSAGE_TYPE_RELIABLE, ..header }.write(&mut buffer);
    assert_eq!(vec![1, 7, 2, 1, 0xAA, 0xAA], buffer);
    header.write_unreliable(&mut buffer);
    assert_eq!(vec![5, 7, 2, 1, 0xAA, 0xAA], buffer);

    let fragment = Header::create_fragmented(258, 3, 9, 257, 2);
    assert_eq!(MESSAGE_TYPE_FRAGMENT, fragment.message_type);
    let mut buffer: Vec<u8> = vec![0; 10];
    fragment.write_fragmented(&mut buffer);
    assert_eq!(vec![2, 3, 2, 1, 9, 0, 1, 1, 2, 0], buffer);
    assert_eq!(fragment, Header::read_fragmented(&buffer));
    assert_eq!(4, TACHYON_HEADER_SIZE);
    assert_eq!(10, TACHYON_NACKED_HEADER_SIZE);
    assert_eq!(10, TACHYON_FRAGMENTED_HEADER_SIZE);
}

#[test]
fn connection_header_round_trip() {
    let header = ConnectionHeader { message_type: 6, id: 0x0102_0304, session_id: 10 };
    let mut buffer: Vec<u8> = vec![0; 9];
    header.write(&mut buffer);
    assert_eq!(vec![6, 4, 3, 2, 1, 10, 0, 0, 0], buffer);
    assert_eq!(header, ConnectionHeader::read(&buffer));
}

#[test]
fn int_buffer_is_little_endian() {
    let mut data: Vec<u8> = vec![0; 8];
    let mut writer = IntBuffer { index: 1 };
    writer.write_u8(9, &mut data);
    writer.write_u16(0xBEEF, &mut data);
    writer.write_u32(0xDEAD_C0DE, &mut data);
    assert_eq!(8, writer.index);
    assert_eq!(vec![0, 9, 0xEF, 0xBE, 0xDE, 0xC0, 0xAD, 0xDE], data);
    let mut reader = IntBuffer { index: 1 };
    assert_eq!(9, reader.read_u8(&data));
    assert_eq!(0xBEEF, reader.read_u16(&data));
    assert_eq!(0xDEAD_C0DE, reader.read_u32(&data));
    let mut target: Vec<u8> = vec![1; 5];
    copy_bytes(&mut target, 1, &data, 2, 3);
    assert_eq!(vec![1, 0xEF, 0xBE, 0xDE, 1], target);
}

#[test]
fn length_prefixed_records() {
    let mut out: Vec<u8> = vec![0; 64];
    let mut writer = LengthPrefixed::default();
    let address = NetworkAddress { a: 127, b: 0, c: 0, d: 1, port: 8001 };
    writer.write(2, address, &[7, 8, 9], &mut out);
    writer.write(0, NetworkAddress::default(), &[], &mut out);
    assert_eq!(33, writer.writer.index);
    assert_eq!(
        &[2u8, 127, 0, 0, 0, 0, 0, 1, 0, 0x41, 0x1F, 3, 0, 0, 0, 7, 8, 9][..],
        &out[..18]
    );

    let mut reader = LengthPrefixed::default();
    let (channel, from, range) = reader.read(&out).unwrap();
    assert_eq!(2, channel);
    assert_eq!(address, from);
    assert_eq!(15..18, range);
    let (channel, from, range) = reader.read(&out).unwrap();
    assert_eq!(0, channel);
    assert!(from.is_default());
    assert_eq!(33..33, range);
    assert!(reader.read(&out[..40]).is_none());
    assert_eq!(33, reader.writer.index);
}

#[test]
fn network_address_values() {
    let address = NetworkAddress::localhost(100);
    assert_eq!(NetworkAddress { a: 127, b: 0, c: 0, d: 1, port: 100 }, address);
    assert_eq!(8265, NetworkAddress::test_address().port);
    assert_eq!(4598, NetworkAddress::mock_client_address().port);
    assert!(NetworkAddress::broadcast(3).is_broadcast());
    assert_eq!(3, NetworkAddress::broadcast(3).port);
    assert!(!address.is_broadcast());
    assert!(NetworkAddress::default().is_default());
    assert!(!address.is_default());
    let mut copy = NetworkAddress::default();
    copy.copy_from(address);
    assert_eq!(address, copy);
    // ((((17 * 23 + 127) * 23 + 0) * 23 + 0) * 23 + 1) * 23 + 100
    assert_eq!(144_957_761, address.get_hash());
    assert_eq!(address.get_hash(), copy.get_hash());
    assert_eq!(127 + (1u128 << 48) + (100u128 << 64), address.key());
    assert_eq!(address.key() + (5u128 << 96), address.channel_key(5));
    assert_ne!(address.key(), NetworkAddress::localhost(101).key());
}
