use iris_parsers::der::{
    build_boolean, build_bit_string, build_explicit_tag, build_generalized_time,
    build_implicit_tag, build_integer_bytes, build_integer_i64, build_octet_string, build_oid,
    build_sequence, build_set, build_tlv, build_utc_time, encode_length, encode_oid_component,
    unix_to_components,
};

#[test]
fn length_short_form() {
    assert_eq!(encode_length(0), vec![0]);
    assert_eq!(encode_length(5), vec![5]);
    assert_eq!(encode_length(127), vec![127]);
}

#[test]
fn length_long_forms() {
    assert_eq!(encode_length(128), vec![0x81, 128]);
    assert_eq!(encode_length(255), vec![0x81, 255]);
    assert_eq!(encode_length(256), vec![0x82, 1, 0]);
    assert_eq!(encode_length(300), vec![0x82, 1, 44]);
}

#[test]
fn tlv_assembly() {
    assert_eq!(build_tlv(0x30, &[1, 2]), vec![0x30, 2, 1, 2]);
    assert_eq!(build_tlv(0x05, &[]), vec![0x05, 0]);
}

#[test]
fn integer_minimal_encodings() {
    assert_eq!(build_integer_i64(0), vec![2, 1, 0]);
    assert_eq!(build_integer_i64(127), vec![2, 1, 0x7f]);
    assert_eq!(build_integer_i64(128), vec![2, 2, 0, 0x80]);
    assert_eq!(build_integer_i64(255), vec![2, 2, 0, 0xff]);
    assert_eq!(build_integer_i64(256), vec![2, 2, 1, 0]);
    assert_eq!(build_integer_i64(-1), vec![2, 1, 0xff]);
    assert_eq!(build_integer_i64(-128), vec![2, 1, 0x80]);
    assert_eq!(build_integer_i64(-129), vec![2, 2, 0xff, 0x7f]);
    assert_eq!(build_integer_i64(65536), vec![2, 3, 1, 0, 0]);
}

#[test]
fn integer_bytes_sign_padding() {
    assert_eq!(build_integer_bytes(&[0x80]), vec![2, 2, 0, 0x80]);
    assert_eq!(build_integer_bytes(&[0x7f]), vec![2, 1, 0x7f]);
}

#[test]
fn container_tags() {
    assert_eq!(build_sequence(&[2, 1, 0]), vec![0x30, 3, 2, 1, 0]);
    assert_eq!(build_set(&[]), vec![0x31, 0]);
    assert_eq!(build_octet_string(&[0xab]), vec![0x04, 1, 0xab]);
    assert_eq!(build_bit_string(&[0xff]), vec![0x03, 2, 0, 0xff]);
}

#[test]
fn boolean_values() {
    assert_eq!(build_boolean(true), vec![1, 1, 0xff]);
    assert_eq!(build_boolean(false), vec![1, 1, 0]);
}

#[test]
fn tagged_values() {
    assert_eq!(build_explicit_tag(1, &[5, 0]), vec![0xa1, 2, 5, 0]);
    assert_eq!(build_implicit_tag(2, &[7]), vec![0x82, 1, 7]);
}

#[test]
fn oid_encoding() {
    let oid = build_oid(&[1, 2, 840, 113549]).expect("two or more components encode");
    assert_eq!(oid, vec![6, 6, 0x2a, 0x86, 0x48, 0x86, 0xf7, 0x0d]);
    assert!(build_oid(&[1]).is_none());
}

#[test]
fn oid_component_base128() {
    let mut out = Vec::new();
    encode_oid_component(840, &mut out);
    assert_eq!(out, vec![0x86, 0x48]);
    let mut small = Vec::new();
    encode_oid_component(113, &mut small);
    assert_eq!(small, vec![113]);
}

#[test]
fn unix_epoch_components() {
    assert_eq!(unix_to_components(0), (1970, 1, 1, 0, 0, 0));
    assert_eq!(unix_to_components(86399), (1970, 1, 1, 23, 59, 59));
    assert_eq!(unix_to_components(86400), (1970, 1, 2, 0, 0, 0));
}

#[test]
fn leap_day_components() {
    // 2000-02-29 00:00:00 UTC
    assert_eq!(unix_to_components(951782400), (2000, 2, 29, 0, 0, 0));
}

#[test]
fn negative_timestamp_components() {
    assert_eq!(unix_to_components(-1), (1969, 12, 31, 23, 59, 59));
}

#[test]
fn utc_time_encoding() {
    let mut expected = vec![0x17, 13];
    expected.extend_from_slice(b"700101000000Z");
    assert_eq!(build_utc_time(0), expected);
}

#[test]
fn generalized_time_encoding() {
    let mut expected = vec![0x18, 15];
    expected.extend_from_slice(b"19700101000000Z");
    assert_eq!(build_generalized_time(0), expected);
    let mut e2 = vec![0x18, 15];
    e2.extend_from_slice(b"20000229000000Z");
    assert_eq!(build_generalized_time(951782400), e2);
}
