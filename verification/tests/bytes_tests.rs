use student_store::bytes::parse_c_header;
use student_store::bytes::read_u32_le_at;
use student_store::bytes::Pair;

#[test]
fn test_reads_valid_offsets() {
    let data = [0x78, 0x56, 0x34, 0x12, 0xEF, 0xBE, 0xAD, 0xDE];
    assert_eq!(read_u32_le_at(&data, 0), Some(0x1234_5678));
    assert_eq!(read_u32_le_at(&data, 4), Some(0xDEAD_BEEF));
}

#[test]
fn test_rejects_oob() {
    let data = [1_u8, 2, 3];
    assert_eq!(read_u32_le_at(&data, 0), None);
}

#[test]
fn test_read_u32_middle_offset() {
    let data = [0x78, 0x56, 0x34, 0x12, 0xEF, 0xBE, 0xAD, 0xDE];
    assert_eq!(read_u32_le_at(&data, 6), None);
    assert_eq!(read_u32_le_at(&data, 2), Some(0xBEEF_1234));
}

#[test]
fn test_parse_c_header_exact() {
    let raw = [0x34, 0x12, 0x01, 0x02, 0x10, 0x00, 0x00, 0x00];
    let h = parse_c_header(&raw).expect("valid header bytes");
    assert_eq!(h.magic, 0x1234);
    assert_eq!(h.version, 1);
    assert_eq!(h.flags, 2);
    assert_eq!(h.len, 16);
}

#[test]
fn test_parse_c_header_short() {
    let raw = [0x34, 0x12, 0x01];
    assert!(parse_c_header(&raw).is_none());
}

#[test]
fn test_pair_fields() {
    let p = Pair { a: 40, b: 2 };
    assert_eq!(p.a + p.b, 42);
}
