use system_foundation::parcel::{Endian, Parcel, ParcelErrorType};

fn build_frame(endian: Endian, topic: u16, write: impl Fn(&mut Parcel)) -> Vec<u8> {
    let mut p = Parcel::new(endian);
    p.tx_write_header();
    p.tx_write_topic(topic);
    write(&mut p);
    p.tx_finalize();
    p.tx_send()
}

#[test]
fn framing_layout_little_endian() {
    let frame = build_frame(Endian::LittleEndian, 0x0102, |p| {
        p.tx_write_u8(0xAB);
        p.tx_write_u16(0x3412);
    });
    // header, topic (LE), size (LE), payload, checksum
    assert_eq!(frame[0], 0x55);
    assert_eq!(frame[1], 0x55);
    assert_eq!(&frame[2..4], &[0x02, 0x01]);
    assert_eq!(&frame[4..6], &[0x03, 0x00]);
    assert_eq!(&frame[6..9], &[0xAB, 0x12, 0x34]);
    assert_eq!(frame[9], 0xFF ^ 0xAB ^ 0x12 ^ 0x34);
    assert_eq!(frame.len(), 10);
}

#[test]
fn framing_layout_big_endian() {
    let frame = build_frame(Endian::BigEndian, 0x0102, |p| {
        p.tx_write_u16(0x3412);
    });
    assert_eq!(&frame[2..4], &[0x01, 0x02]);
    assert_eq!(&frame[4..6], &[0x00, 0x02]);
    assert_eq!(&frame[6..8], &[0x34, 0x12]);
}

#[test]
fn round_trip_through_receive_buffer() {
    let frame = build_frame(Endian::LittleEndian, 77, |p| {
        p.tx_write_u32(0xDEADBEEF);
        p.tx_write_i16(-2);
    });
    let mut rx = Parcel::new(Endian::LittleEndian);
    rx.rx_receive(frame);
    let (topic, payload) = rx.rx_read_frame().unwrap();
    assert_eq!(topic, 77);
    assert_eq!(payload.len(), 6);
    assert_eq!(
        Parcel::rx_read_u32(&payload, 0, Endian::LittleEndian),
        Ok(0xDEADBEEF)
    );
    assert_eq!(Parcel::rx_read_i16(&payload, 4, Endian::LittleEndian), Ok(-2));
    // The frame has been consumed.
    assert!(rx.rx_read_frame().is_none());
}

#[test]
fn leading_junk_is_skipped() {
    let frame = build_frame(Endian::BigEndian, 5, |p| {
        p.tx_write_u8(9);
    });
    let mut rx = Parcel::new(Endian::BigEndian);
    rx.rx_receive(vec![0x00, 0x13, 0x7A]);
    rx.rx_receive(frame);
    let (topic, payload) = rx.rx_read_frame().unwrap();
    assert_eq!(topic, 5);
    assert_eq!(payload, vec![9]);
}

#[test]
fn corrupted_checksum_is_rejected() {
    let mut frame = build_frame(Endian::LittleEndian, 5, |p| {
        p.tx_write_u8(9);
    });
    let last = frame.len() - 1;
    frame[last] ^= 0xFF;
    let mut rx = Parcel::new(Endian::LittleEndian);
    rx.rx_receive(frame);
    assert!(rx.rx_read_frame().is_none());
}

#[test]
fn incomplete_frame_waits_for_more_bytes() {
    let frame = build_frame(Endian::LittleEndian, 3, |p| {
        p.tx_write_u64(123456789);
    });
    let (head, tail) = frame.split_at(8);
    let mut rx = Parcel::new(Endian::LittleEndian);
    rx.rx_receive(head.to_vec());
    assert!(rx.rx_read_frame().is_none());
    rx.rx_receive(tail.to_vec());
    let (topic, payload) = rx.rx_read_frame().unwrap();
    assert_eq!(topic, 3);
    assert_eq!(
        Parcel::rx_read_u64(&payload, 0, Endian::LittleEndian),
        Ok(123456789)
    );
}

#[test]
fn payload_reads_honor_endianness_and_bounds() {
    let payload = vec![0x01, 0x02, 0x03, 0x04, 0x05, 0x06, 0x07, 0x08];
    assert_eq!(Parcel::rx_read_u8(&payload, 0, Endian::BigEndian), Ok(0x01));
    assert_eq!(Parcel::rx_read_u16(&payload, 0, Endian::BigEndian), Ok(0x0102));
    assert_eq!(
        Parcel::rx_read_u16(&payload, 0, Endian::LittleEndian),
        Ok(0x0201)
    );
    assert_eq!(
        Parcel::rx_read_u32(&payload, 2, Endian::BigEndian),
        Ok(0x03040506)
    );
    assert_eq!(
        Parcel::rx_read_u64(&payload, 0, Endian::LittleEndian),
        Ok(0x0807060504030201)
    );
    assert_eq!(
        Parcel::rx_read_u64(&payload, 1, Endian::LittleEndian),
        Err(ParcelErrorType::OutOfBounds)
    );
    assert_eq!(
        Parcel::rx_read_u16(&payload, 7, Endian::BigEndian),
        Err(ParcelErrorType::OutOfBounds)
    );
}

#[test]
fn signed_reads_reconstruct_negative_values() {
    let payload = vec![0xFF, 0xFE, 0xFF, 0xFF, 0xFF, 0xFF, 0xFF, 0xFF, 0xFF, 0xFF];
    assert_eq!(Parcel::rx_read_i8(&payload, 0, Endian::BigEndian), Ok(-1));
    assert_eq!(Parcel::rx_read_i16(&payload, 1, Endian::BigEndian), Ok(-257));
    assert_eq!(
        Parcel::rx_read_i32(&payload, 1, Endian::LittleEndian),
        Ok(-2)
    );
    assert_eq!(Parcel::rx_read_i64(&payload, 1, Endian::BigEndian), Ok(-72057594037927937));
}

#[test]
fn string_reads_decode_utf8() {
    let payload = vec![b'm', b'a', b'p', 0xFF, 0xFE];
    assert_eq!(Parcel::rx_read_string(&payload, 0, 3), Ok(String::from("map")));
    assert_eq!(
        Parcel::rx_read_string(&payload, 3, 2),
        Err(ParcelErrorType::InvalidData)
    );
    assert_eq!(
        Parcel::rx_read_string(&payload, 4, 2),
        Err(ParcelErrorType::OutOfBounds)
    );
}

#[test]
fn tx_phases_reset_with_clear() {
    let mut p = Parcel::new(Endian::LittleEndian);
    p.tx_write_header();
    p.tx_write_topic(1);
    p.tx_write_string(String::from("ok"));
    p.tx_finalize();
    let first = p.tx_send();
    assert_eq!(&first[6..8], b"ok");
    p.tx_clear();
    p.tx_write_header();
    p.tx_write_topic(2);
    p.tx_finalize();
    let second = p.tx_send();
    assert_eq!(second.len(), 7);
}
