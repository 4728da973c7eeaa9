use sqllite::varint::{
    read_signed_varint, read_varint, varint_len, write_signed_varint, write_varint, MAX_VARINT_LEN,
};

#[test]
fn roundtrip_varint() {
    for v in [0u64, 1, 127, 128, 300, 16384] {
        let mut buf = [0u8; MAX_VARINT_LEN];
        let n = write_varint(v, &mut buf);
        let (decoded, m) = read_varint(&buf, 0).unwrap();
        assert_eq!(v, decoded, "failed for value {v}");
        assert_eq!(n, m);
    }
}

#[test]
fn signed_varint() {
    for v in [-1i64, 0, 1, 100, -100] {
        let mut buf = [0u8; MAX_VARINT_LEN];
        let n = write_signed_varint(v, &mut buf);
        let (decoded, m) = read_signed_varint(&buf, 0).unwrap();
        assert_eq!(v, decoded, "failed for value {v}");
        assert_eq!(n, m);
    }
}

#[test]
fn varint_bytes_are_big_endian_base128() {
    let mut buf = [0u8; MAX_VARINT_LEN];
    let n = write_varint(300, &mut buf);
    assert_eq!(n, 2);
    assert_eq!(&buf[..2], &[0x82, 0x2c]);
    assert_eq!(varint_len(300), 2);
    assert_eq!(varint_len(0), 1);
    assert_eq!(varint_len(127), 1);
    assert_eq!(varint_len(128), 2);
}

#[test]
fn varint_large_values_roundtrip_below_2_56() {
    for v in [(1u64 << 56) - 1, 1u64 << 49, 123_456_789_012] {
        let mut buf = [0u8; MAX_VARINT_LEN];
        let n = write_varint(v, &mut buf);
        assert_eq!(read_varint(&buf, 0).unwrap(), (v, n));
    }
}

#[test]
fn nine_byte_varint_takes_all_bits_of_last_byte() {
    let buf = [0xffu8; 9];
    let (v, n) = read_varint(&buf, 0).unwrap();
    assert_eq!(n, 9);
    assert_eq!(v, u64::MAX);
}

#[test]
fn truncated_varint_is_corrupt() {
    let buf = [0x81u8, 0x80];
    let e = read_varint(&buf, 0).unwrap_err();
    assert_eq!(e.code(), sqllite::error::ResultCode::Corrupt);
    assert_eq!(e.message(), "truncated varint");
    let e = read_varint(&buf, 5).unwrap_err();
    assert_eq!(e.message(), "truncated varint");
}

#[test]
fn zigzag_mapping_values() {
    let mut buf = [0u8; MAX_VARINT_LEN];
    write_signed_varint(-1, &mut buf);
    assert_eq!(buf[0], 1);
    write_signed_varint(1, &mut buf);
    assert_eq!(buf[0], 2);
    write_signed_varint(-3, &mut buf);
    assert_eq!(buf[0], 5);
}

#[test]
fn large_varints_take_nine_bytes() {
    for v in [1u64 << 56, (1u64 << 56) + 255, 1u64 << 63, u64::MAX] {
        let mut buf = [0u8; MAX_VARINT_LEN];
        let n = write_varint(v, &mut buf);
        assert_eq!(n, 9);
        assert_eq!(varint_len(v), 9);
        assert_eq!(read_varint(&buf, 0).unwrap(), (v, 9));
    }
    let mut buf = [0u8; MAX_VARINT_LEN];
    write_varint(1u64 << 56, &mut buf);
    assert_eq!(buf, [0x80, 0xC0, 0x80, 0x80, 0x80, 0x80, 0x80, 0x80, 0x00]);
    assert_eq!(varint_len((1u64 << 56) - 1), 8);
}
