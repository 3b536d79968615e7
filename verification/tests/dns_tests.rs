use iris_parsers::dns::{build_query_bytes, format_rdata, hex, parse_dns, parse_name, parse_rr_section, serialize_name};

#[test]
fn name_round_trip() {
    let enc = serialize_name(b"example.com");
    assert_eq!(enc, vec![7, b'e', b'x', b'a', b'm', b'p', b'l', b'e', 3, b'c', b'o', b'm', 0]);
    let (name, end) = parse_name(&enc, 0).expect("round trip decodes");
    assert_eq!(name, b"example.com".to_vec());
    assert_eq!(end, enc.len());
}

#[test]
fn empty_name_renders_as_dot() {
    let (name, end) = parse_name(&[0u8], 0).expect("root name decodes");
    assert_eq!(name, b".".to_vec());
    assert_eq!(end, 1);
}

#[test]
fn ten_pointer_jumps_allowed() {
    // terminator at offset 0, then pointers at 2, 4, ..., 20, each
    // sending decoding one step down the chain
    let mut buf = vec![0u8, 0u8];
    for i in 1..11u8 {
        buf.push(0xc0);
        buf.push(2 * (i - 1));
    }
    // starting at offset 20 follows exactly ten jumps
    let (name, end) = parse_name(&buf, 20).expect("ten jumps are allowed");
    assert_eq!(name, b".".to_vec());
    assert_eq!(end, 22);
}

#[test]
fn eleventh_pointer_jump_rejected() {
    let mut buf = vec![0u8, 0u8];
    for i in 1..12u8 {
        buf.push(0xc0);
        buf.push(2 * (i - 1));
    }
    // starting at offset 22 would need eleven jumps
    assert!(parse_name(&buf, 22).is_none());
}

#[test]
fn self_pointer_rejected() {
    // a pointer to itself can never terminate; the jump budget stops it
    let buf = [0xc0u8, 0x00u8];
    assert!(parse_name(&buf, 0).is_none());
}

#[test]
fn short_buffer_rejected() {
    assert!(parse_dns(&[0u8; 11]).is_none());
    assert!(parse_dns(&[]).is_none());
}

#[test]
fn oversized_section_count_rejected() {
    // a declared question count of 257 over an otherwise fine header
    let mut buf = vec![0u8; 12];
    buf[4] = 0x01;
    buf[5] = 0x01;
    assert!(parse_dns(&buf).is_none());
    // the same for the answer count
    let mut buf2 = vec![0u8; 12];
    buf2[6] = 0x01;
    buf2[7] = 0x01;
    assert!(parse_dns(&buf2).is_none());
}

#[test]
fn build_query_exact_bytes() {
    let q = build_query_bytes(b"example.com", 1, 0x1234, true);
    let mut expected = vec![0x12u8, 0x34, 0x01, 0x00, 0, 1, 0, 0, 0, 0, 0, 0];
    expected.extend_from_slice(&[7, b'e', b'x', b'a', b'm', b'p', b'l', b'e', 3, b'c', b'o', b'm', 0]);
    expected.extend_from_slice(&[0, 1, 0, 1]);
    assert_eq!(q, expected);
}

#[test]
fn built_query_parses_back() {
    let q = build_query_bytes(b"example.com", 28, 0xbeef, false);
    let msg = parse_dns(&q).expect("a built query parses");
    assert_eq!(msg.id, 0xbeef);
    assert!(!msg.is_response);
    assert!(!msg.recursion_desired);
    assert_eq!(msg.questions.len(), 1);
    assert_eq!(msg.questions[0].name, b"example.com".to_vec());
    assert_eq!(msg.questions[0].qtype, 28);
    assert_eq!(msg.questions[0].qclass, 1);
    assert_eq!(msg.answers.len(), 0);
}

fn answer_message(rtype: u16, rdata: &[u8]) -> Vec<u8> {
    // header: a response with one answer and no questions
    let mut buf = vec![0u8, 42, 0x81, 0x80, 0, 0, 0, 1, 0, 0, 0, 0];
    buf.extend_from_slice(&[3, b'w', b'w', b'w', 0]);
    buf.extend_from_slice(&rtype.to_be_bytes());
    buf.extend_from_slice(&[0, 1]);
    buf.extend_from_slice(&[0, 0, 0, 60]);
    buf.extend_from_slice(&(rdata.len() as u16).to_be_bytes());
    buf.extend_from_slice(rdata);
    buf
}

#[test]
fn a_record_display() {
    let buf = answer_message(1, &[93, 184, 216, 34]);
    let msg = parse_dns(&buf).expect("well-formed answer parses");
    assert_eq!(msg.id, 42);
    assert!(msg.is_response);
    assert_eq!(msg.answers.len(), 1);
    assert_eq!(msg.answers[0].name, b"www".to_vec());
    assert_eq!(msg.answers[0].rtype, 1);
    assert_eq!(msg.answers[0].ttl, 60);
    assert_eq!(msg.answers[0].rdata, vec![93, 184, 216, 34]);
    assert_eq!(msg.answers[0].display, b"93.184.216.34".to_vec());
}

#[test]
fn aaaa_record_display() {
    let rd = [0x20u8, 0x01, 0x0d, 0xb8, 0, 0, 0, 0, 0, 0, 0, 0, 0, 0, 0, 1];
    let buf = answer_message(28, &rd);
    let msg = parse_dns(&buf).expect("well-formed answer parses");
    assert_eq!(msg.answers[0].display, b"2001:db8:0:0:0:0:0:1".to_vec());
}

#[test]
fn txt_record_display() {
    let buf = answer_message(16, &[5, b'h', b'e', b'l', b'l', b'o', 3, b'f', b'o', b'o']);
    let msg = parse_dns(&buf).expect("well-formed answer parses");
    assert_eq!(msg.answers[0].display, b"hellofoo".to_vec());
}

#[test]
fn mx_record_display() {
    let mut rd = vec![0u8, 10];
    rd.extend_from_slice(&[4, b'm', b'a', b'i', b'l', 0]);
    let buf = answer_message(15, &rd);
    let msg = parse_dns(&buf).expect("well-formed answer parses");
    assert_eq!(msg.answers[0].display, b"10 mail".to_vec());
}

#[test]
fn svcb_alias_mode_display() {
    let buf = answer_message(64, &[0, 0, 0]);
    let msg = parse_dns(&buf).expect("well-formed answer parses");
    assert_eq!(msg.answers[0].display, b"AliasMode .".to_vec());
}

#[test]
fn unknown_type_display_is_hex() {
    let buf = answer_message(99, &[0xde, 0xad]);
    let msg = parse_dns(&buf).expect("well-formed answer parses");
    assert_eq!(msg.answers[0].display, b"dead".to_vec());
}

#[test]
fn cname_display_follows_compression() {
    // the CNAME target is a pointer back to the owner name "www"
    let rd = [0xc0u8, 12];
    let buf = answer_message(5, &rd);
    let msg = parse_dns(&buf).expect("well-formed answer parses");
    assert_eq!(msg.answers[0].display, b"www".to_vec());
}

#[test]
fn truncated_answer_section_kept() {
    // two answers declared, only one present: the section truncates
    let mut buf = answer_message(1, &[1, 2, 3, 4]);
    buf[7] = 2;
    let msg = parse_dns(&buf).expect("truncation does not fail the parse");
    assert_eq!(msg.answers.len(), 1);
}

#[test]
fn malformed_question_fails_whole_parse() {
    // one question declared but the name runs past the buffer
    let mut buf = vec![0u8, 1, 0, 0, 0, 1, 0, 0, 0, 0, 0, 0];
    buf.push(9);
    buf.push(b'x');
    assert!(parse_dns(&buf).is_none());
}

#[test]
fn parse_rr_section_stops_at_bad_record() {
    let mut buf = answer_message(1, &[1, 2, 3, 4]);
    let record_start = 12;
    buf.push(0xff); // a stray over-long label after the good record
    let mut off = record_start;
    let rrs = parse_rr_section(&buf, &mut off, 2);
    assert_eq!(rrs.len(), 1);
    assert_eq!(rrs[0].display, b"1.2.3.4".to_vec());
}

#[test]
fn serialize_name_truncates_long_label() {
    let long = vec![b'a'; 70];
    let enc = serialize_name(&long);
    assert_eq!(enc.len(), 65);
    assert_eq!(enc[0], 63);
    assert_eq!(enc[64], 0);
}

#[test]
fn serialize_name_drops_empty_labels() {
    assert_eq!(serialize_name(b"a..b."), vec![1, b'a', 1, b'b', 0]);
    assert_eq!(serialize_name(b""), vec![0]);
}

#[test]
fn hex_dump_format() {
    assert_eq!(hex(&[0x0f, 0xa0, 0x00]), b"0fa000".to_vec());
    assert_eq!(hex(&[]), b"".to_vec());
}

#[test]
fn format_rdata_wrong_length_falls_back_to_hex() {
    // an A record payload of three bytes is not an address
    let out = format_rdata(1, &[1, 2, 3], &[], 0);
    assert_eq!(out, b"010203".to_vec());
}

#[test]
fn invalid_label_utf8_rejected() {
    // a label byte sequence that is not UTF-8 fails the name
    let buf = [2u8, 0xff, 0xfe, 0];
    assert!(parse_name(&buf, 0).is_none());
}
