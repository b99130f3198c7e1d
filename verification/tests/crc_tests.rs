use ogg_demux::crc::Crc;

#[test]
fn known_check_value() {
    let c = Crc::new();
    let data: Vec<u8> = b"123456789".to_vec();
    assert_eq!(c.checksum(&data), 0x89a1897f);
}

#[test]
fn empty_input_checksums_to_zero() {
    let c = Crc::new();
    let data: Vec<u8> = Vec::new();
    assert_eq!(c.checksum(&data), 0);
}

#[test]
fn zero_bytes_keep_a_zero_accumulator() {
    let c = Crc::new();
    let data: Vec<u8> = vec![0, 0, 0, 0, 0, 0, 0];
    assert_eq!(c.checksum(&data), 0);
}

#[test]
fn single_byte_matches_table_polynomial() {
    let c = Crc::new();
    // 0x01 folded into a zero accumulator is the polynomial itself
    let data: Vec<u8> = vec![1];
    assert_eq!(c.checksum(&data), 0x04c11db7);
}

#[test]
fn fold_range_threads_the_accumulator() {
    let c = Crc::new();
    let data: Vec<u8> = b"abcdef".to_vec();
    let whole = c.checksum(&data);
    let first = c.fold_range(0, &data, 0, 3);
    let rest = c.fold_range(first, &data, 3, 6);
    assert_eq!(rest, whole);
}

#[test]
fn fold_zero4_equals_four_explicit_zero_bytes() {
    let c = Crc::new();
    let zeros: Vec<u8> = vec![0, 0, 0, 0];
    let mixed = c.fold_range(0x12345678, &zeros, 0, 4);
    assert_eq!(c.fold_zero4(0x12345678), mixed);
}
