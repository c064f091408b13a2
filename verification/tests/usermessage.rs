use base::usermessage::{hash_usermessage_name, UserMsgReader, UserMsgWriter};

#[test]
fn hash_is_fnv1a_of_the_name() {
    assert_eq!(hash_usermessage_name(""), 2166136261);
    assert_eq!(hash_usermessage_name("a"), 3826002220);
    assert_eq!(hash_usermessage_name("Test"), 805092869);
    assert_eq!(hash_usermessage_name("PlayerSpawned"), 1946187694);
}

#[test]
fn writer_emits_little_endian_bytes() {
    let mut w = UserMsgWriter::new();
    w.write_u8(0xab);
    w.write_u16(0x1234);
    w.write_i16(-2);
    w.write_u32(0x0102_0304);
    assert_eq!(w.into_bytes(), vec![0xab, 0x34, 0x12, 0xfe, 0xff, 0x04, 0x03, 0x02, 0x01]);
}

#[test]
fn writer_with_capacity_starts_empty() {
    let w = UserMsgWriter::with_capacity(64);
    assert!(w.into_bytes().is_empty());
}

#[test]
fn every_width_reads_back_what_was_written() {
    let mut w = UserMsgWriter::new();
    w.write_u8(200);
    w.write_i8(-100);
    w.write_u16(65000);
    w.write_i16(-30000);
    w.write_u32(4_000_000_000);
    w.write_i32(-2_000_000_000);
    w.write_u64(u64::MAX - 1);
    w.write_i64(i64::MIN);
    let bytes = w.into_bytes();
    assert_eq!(bytes.len(), 1 + 1 + 2 + 2 + 4 + 4 + 8 + 8);
    let mut r = UserMsgReader::new(bytes);
    assert_eq!(r.read_u8(), Some(200));
    assert_eq!(r.read_i8(), Some(-100));
    assert_eq!(r.read_u16(), Some(65000));
    assert_eq!(r.read_i16(), Some(-30000));
    assert_eq!(r.read_u32(), Some(4_000_000_000));
    assert_eq!(r.read_i32(), Some(-2_000_000_000));
    assert_eq!(r.read_u64(), Some(u64::MAX - 1));
    assert_eq!(r.read_i64(), Some(i64::MIN));
    assert_eq!(r.read_u8(), None);
}

#[test]
fn a_short_read_gives_none_and_keeps_the_position() {
    let mut r = UserMsgReader::new(vec![1, 2, 3]);
    assert_eq!(r.read_u32(), None);
    assert_eq!(r.read_u64(), None);
    assert_eq!(r.read_u16(), Some(0x0201));
    assert_eq!(r.read_u16(), None);
    assert_eq!(r.read_i8(), Some(3));
    assert_eq!(r.read_u8(), None);
    assert_eq!(r.read_i8(), None);
}

#[test]
fn empty_message_reads_nothing() {
    let mut r = UserMsgReader::new(Vec::new());
    assert_eq!(r.read_u8(), None);
    assert_eq!(r.read_i16(), None);
    assert_eq!(r.read_i32(), None);
    assert_eq!(r.read_i64(), None);
}
