use dns_stub::{build_dns_query, parse_compressed_name, parse_domain_name, DnsError};

#[test]
fn query_wire_format_is_exact() {
    let query = build_dns_query("example.com").unwrap();
    let mut expected = vec![0x12, 0x34, 0x01, 0x00, 0, 1, 0, 0, 0, 0, 0, 0];
    expected.extend_from_slice(&[7]);
    expected.extend_from_slice(b"example");
    expected.extend_from_slice(&[3]);
    expected.extend_from_slice(b"com");
    expected.extend_from_slice(&[0, 0, 2, 0, 1]);
    assert_eq!(query, expected);
}

#[test]
fn query_question_round_trips() {
    let domain = "sub.Example.Com";
    let query = build_dns_query(domain).unwrap();
    let mut offset = 12;
    let decoded = parse_domain_name(&query, &mut offset).unwrap();
    assert_eq!(decoded, domain);
    // The cursor lands just past the terminating zero, on the type field.
    assert_eq!(offset, 12 + domain.len() + 2);
    assert_eq!(&query[offset..], &[0, 2, 0, 1]);
}

#[test]
fn empty_domain_encodes_as_root() {
    let query = build_dns_query("").unwrap();
    assert_eq!(&query[12..], &[0, 0, 0, 2, 0, 1]);
}

#[test]
fn overlong_label_is_rejected() {
    let long_label = "a".repeat(64);
    let domain = format!("{}.com", long_label);
    assert_eq!(build_dns_query(&domain), Err(DnsError::LabelTooLong));
    let ok_label = "a".repeat(63);
    assert!(build_dns_query(&format!("{}.com", ok_label)).is_ok());
}

#[test]
fn overlong_domain_is_rejected() {
    let mut domain = String::new();
    for _ in 0..64 {
        domain.push_str("abc.");
    }
    assert_eq!(domain.len(), 256);
    assert_eq!(build_dns_query(&domain), Err(DnsError::DomainTooLong));
    assert_eq!(
        DnsError::DomainTooLong.message(),
        "domain longer than 255 bytes".to_string()
    );
}

#[test]
fn pointer_resolves_to_question_name() {
    // A name at offset 12, and at offset 19 a pointer back to it.
    let buf = [
        0u8, 0, 0, 0, 0, 0, 0, 0, 0, 0, 0, 0, // header-sized padding
        3, b'f', b'o', b'o', 2, b'i', b'o', 0, // foo.io
        0xC0, 12, // pointer to offset 12
    ];
    assert_eq!(parse_compressed_name(&buf, 20).unwrap(), "foo.io");
}

#[test]
fn pointer_chain_within_cap_resolves() {
    // Five chained pointers, the cap, then the literal name.
    let buf = [
        0xC0, 2, 0xC0, 4, 0xC0, 6, 0xC0, 8, 0xC0, 10, // five pointers
        2, b'o', b'k', 0, // ok
    ];
    assert_eq!(parse_compressed_name(&buf, 0).unwrap(), "ok");
}

#[test]
fn pointer_chain_past_cap_fails() {
    // Six chained pointers: one more than the cap allows.
    let buf = [
        0xC0, 2, 0xC0, 4, 0xC0, 6, 0xC0, 8, 0xC0, 10, 0xC0, 12, // six pointers
        2, b'o', b'k', 0,
    ];
    assert_eq!(parse_compressed_name(&buf, 0), Err(DnsError::TooManyJumps));
}

#[test]
fn pointer_loop_fails_instead_of_spinning() {
    let buf = [0xC0u8, 0];
    assert_eq!(parse_compressed_name(&buf, 0), Err(DnsError::TooManyJumps));
    assert_eq!(
        DnsError::TooManyJumps.message(),
        "too many compression jumps".to_string()
    );
}

#[test]
fn label_past_buffer_end_fails() {
    // Declared label length 5, but only two bytes follow.
    let buf = [5u8, b'a', b'b'];
    assert_eq!(parse_compressed_name(&buf, 0), Err(DnsError::LabelOutOfBounds));
}

#[test]
fn offset_past_buffer_end_fails() {
    let buf = [0u8, 0];
    assert_eq!(parse_compressed_name(&buf, 2), Err(DnsError::OffsetOutOfBounds));
    assert_eq!(parse_compressed_name(&buf, 100), Err(DnsError::OffsetOutOfBounds));
}

#[test]
fn pointer_missing_second_byte_fails() {
    let buf = [1u8, b'x', 0xC0];
    assert_eq!(parse_compressed_name(&buf, 2), Err(DnsError::InvalidPointer));
}

#[test]
fn pointer_to_out_of_bounds_target_fails() {
    // A pointer to offset 300, far past the end of the buffer.
    let buf = [0xC1u8, 44, 0];
    assert_eq!(parse_compressed_name(&buf, 0), Err(DnsError::OffsetOutOfBounds));
}

#[test]
fn root_name_decodes_to_empty() {
    let buf = [0u8];
    assert_eq!(parse_compressed_name(&buf, 0).unwrap(), "");
    let mut offset = 0;
    assert_eq!(parse_domain_name(&buf, &mut offset).unwrap(), "");
    assert_eq!(offset, 1);
}

#[test]
fn invalid_utf8_label_fails() {
    // 0xFF can never appear in UTF-8.
    let buf = [2u8, 0xFF, b'a', 0];
    assert_eq!(parse_compressed_name(&buf, 0), Err(DnsError::InvalidUtf8));
    assert_eq!(
        DnsError::InvalidUtf8.message(),
        "invalid UTF-8 in a label".to_string()
    );
}

#[test]
fn valid_non_ascii_utf8_label_decodes() {
    // One label holding "é" (0xC3 0xA9), a valid two-byte UTF-8 sequence.
    let buf = [2u8, 0xC3, 0xA9, 0];
    assert_eq!(parse_compressed_name(&buf, 0).unwrap(), "é");
    let mut offset = 0;
    assert_eq!(parse_domain_name(&buf, &mut offset).unwrap(), "é");
    assert_eq!(offset, 4);
}

#[test]
fn truncated_utf8_label_fails() {
    // A two-byte sequence cut off by the label boundary is not valid UTF-8
    // within the label.
    let buf = [1u8, 0xC3, 0];
    assert_eq!(parse_compressed_name(&buf, 0), Err(DnsError::InvalidUtf8));
}

#[test]
fn cursor_advances_past_first_pointer_only() {
    // name at 4: "ab" then a pointer to the name at 0.
    let buf = [1u8, b'c', 0, 0, 2, b'a', b'b', 0xC0, 0, 9, 9];
    let mut offset = 4;
    let decoded = parse_domain_name(&buf, &mut offset).unwrap();
    assert_eq!(decoded, "ab.c");
    // Two bytes for the first pointer, nothing for the jump target.
    assert_eq!(offset, 9);
}
