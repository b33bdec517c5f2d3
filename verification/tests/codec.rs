use quil_node::bytes::{be_bytes_u64, read_be_u32, read_be_u64, sub_bytes, zeros};
use quil_node::text::{concat2, concat3, decimal, has_part};

#[test]
fn numbers_are_written_in_decimal() {
    for n in [0u64, 9, 10, 255, 1_000_000, u64::MAX] {
        assert_eq!(decimal(n), format!("{}", n));
    }
}

#[test]
fn texts_are_joined() {
    assert_eq!(concat2("a", "bc"), "abc");
    assert_eq!(concat3("", "é", "!"), "é!");
    assert!(has_part("a:8336", 1, ":8336"));
    assert!(!has_part("a:833", 1, ":8336"));
}

#[test]
fn bytes_are_read_and_written_big_endian() {
    assert_eq!(be_bytes_u64(0x0102_0304_0506_0708), vec![1, 2, 3, 4, 5, 6, 7, 8]);
    assert_eq!(read_be_u64(&[1, 2, 3, 4, 5, 6, 7, 8]), 0x0102_0304_0506_0708);
    assert_eq!(read_be_u32(&[0xde, 0xad, 0xbe, 0xef]), 0xdead_beef);
    assert_eq!(sub_bytes(&[1, 2, 3, 4], 1, 3), vec![2, 3]);
    assert_eq!(zeros(3), vec![0, 0, 0]);
}
