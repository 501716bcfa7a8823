use wetdet::sdlog::le::{from_le, to_le};
use wetdet::sdlog::status::{StatusPage, MAGIC, STATUS_PAGE_SIZE};

#[test]
fn little_endian_widths() {
    let mut v = Vec::new();
    to_le(&mut v, 2, 0x1234);
    assert_eq!(v, vec![0x34, 0x12]);
    to_le(&mut v, 1, 0x1ff);
    assert_eq!(v, vec![0x34, 0x12, 0xff]);
    let mut w = Vec::new();
    to_le(&mut w, 8, 0x0102030405060708);
    assert_eq!(w, vec![8, 7, 6, 5, 4, 3, 2, 1]);
    assert_eq!(from_le(&w, 8), 0x0102030405060708);
    assert_eq!(from_le(&w, 4), 0x05060708);
    assert_eq!(from_le(&w, 2), 0x0708);
    assert_eq!(from_le(&w, 1), 0x08);
}

#[test]
fn little_endian_roundtrip_truncates() {
    for nr in [1usize, 2, 4, 8] {
        let mut v = Vec::new();
        to_le(&mut v, nr, u64::MAX - 5);
        let mask = if nr == 8 { u64::MAX } else { (1u64 << (8 * nr)) - 1 };
        assert_eq!(from_le(&v, nr), (u64::MAX - 5) & mask);
    }
}

#[test]
fn status_page_roundtrip() {
    let p = StatusPage {
        magic0: MAGIC,
        serial0: 42,
        read_block: 7,
        write_block: 1000,
        read_byte: 511,
        write_byte: 3,
        serial1: 42,
        magic1: MAGIC,
    };
    let b = p.to_bytes();
    assert_eq!(b.len(), STATUS_PAGE_SIZE);
    assert_eq!(&b[0..8], &MAGIC.to_le_bytes());
    assert_eq!(&b[32..34], &511u16.to_le_bytes());
    assert_eq!(&b[36..40], &[0, 0, 0, 0]);
    assert_eq!(StatusPage::from_bytes(&b), p);
    assert_eq!(StatusPage::zeroed(), StatusPage::from_bytes(&[0u8; 56]));
}
