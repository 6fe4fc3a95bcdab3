use dns_stub::{get_nameservers, parse_dns_response, DnsError};

/// A synthetic NS response for `domain` with one answer per entry of
/// `servers`: the question echoes the domain, each answer's owning name is
/// a pointer to the question, and each answer's resource data is the
/// server's first label followed by a pointer back into the question.
fn synthetic_ns_response(domain: &str, servers: &[&str]) -> Vec<u8> {
    let mut buf = Vec::new();
    // Header: id, response flags, one question, `servers.len()` answers.
    buf.extend_from_slice(&[0x12, 0x34, 0x81, 0x80]);
    buf.extend_from_slice(&[0, 1]);
    buf.extend_from_slice(&(servers.len() as u16).to_be_bytes());
    buf.extend_from_slice(&[0, 0, 0, 0]);
    // Question: the domain as labels, then type NS, class IN.
    let name_at = buf.len() as u16;
    for label in domain.split('.') {
        buf.push(label.len() as u8);
        buf.extend_from_slice(label.as_bytes());
    }
    buf.push(0);
    buf.extend_from_slice(&[0, 2, 0, 1]);
    for server in servers {
        // Owning name: pointer to the question's name.
        buf.extend_from_slice(&[0xC0 | (name_at >> 8) as u8, (name_at & 0xFF) as u8]);
        // Type NS, class IN, a one-minute TTL.
        buf.extend_from_slice(&[0, 2, 0, 1, 0, 0, 0, 60]);
        // Resource data: the server's own label, then a pointer to the
        // question's domain.
        let label = server.split('.').next().unwrap();
        let rd_len = (label.len() + 1 + 2) as u16;
        buf.extend_from_slice(&rd_len.to_be_bytes());
        buf.push(label.len() as u8);
        buf.extend_from_slice(label.as_bytes());
        buf.extend_from_slice(&[0xC0 | (name_at >> 8) as u8, (name_at & 0xFF) as u8]);
    }
    buf
}

#[test]
fn test_get_nameservers() {
    let domain = "mackenly.com";
    let response = synthetic_ns_response(domain, &["ns1.mackenly.com", "ns2.mackenly.com"]);
    let result = get_nameservers(&response);
    assert!(result.is_ok());
    let nameservers = result.unwrap();
    assert!(!nameservers.is_empty());
    assert!(nameservers.len() >= 2);
}

#[test]
fn test_that_both_functions_return_same_results() {
    let domain = "mackenly.com";
    let response = synthetic_ns_response(domain, &["ns1.mackenly.com", "ns2.mackenly.com"]);
    let result1 = get_nameservers(&response);
    let result2 = parse_dns_response(&response).map(|answers| {
        let mut names = Vec::new();
        for answer in answers {
            if answer.record_type == 2 {
                names.push(answer.name_server(&response).unwrap());
            }
        }
        names
    });
    assert!(result1.is_ok());
    assert!(result2.is_ok());
    let mut nameservers1 = result1.unwrap();
    let mut nameservers2 = result2.unwrap();
    println!("{:?}", nameservers1);
    println!("{:?}", nameservers2);
    nameservers1.sort_unstable();
    nameservers2.sort_unstable();
    assert_eq!(nameservers1, nameservers2);
}

#[test]
fn nameservers_are_decompressed_in_order() {
    let response = synthetic_ns_response(
        "example.com",
        &["a.iana-servers.net", "b.iana-servers.net"],
    );
    let names = get_nameservers(&response).unwrap();
    assert_eq!(names, vec!["a.example.com".to_string(), "b.example.com".to_string()]);
}

#[test]
fn zero_answers_is_empty_not_error() {
    let mut buf = Vec::new();
    buf.extend_from_slice(&[0x12, 0x34, 0x81, 0x80, 0, 1, 0, 0, 0, 0, 0, 0]);
    buf.extend_from_slice(&[3, b'c', b'o', b'm', 0, 0, 2, 0, 1]);
    assert_eq!(get_nameservers(&buf), Ok(Vec::new()));
    assert_eq!(parse_dns_response(&buf).unwrap().len(), 0);
}

#[test]
fn short_header_is_truncated_error() {
    let buf = [0x12, 0x34, 0x81];
    assert_eq!(get_nameservers(&buf), Err(DnsError::TruncatedMessage));
}

#[test]
fn answer_fields_survive_parsing() {
    let response = synthetic_ns_response("example.com", &["ns.example.com"]);
    let answers = parse_dns_response(&response).unwrap();
    assert_eq!(answers.len(), 1);
    let answer = &answers[0];
    assert_eq!(answer.name, "example.com");
    assert_eq!(answer.record_type, 2);
    assert_eq!(answer.class, 1);
    assert_eq!(answer.ttl, 60);
    assert_eq!(answer.rd_length, 5);
    assert_eq!(answer.rdata, vec![2, b'n', b's', 0xC0, 12]);
    assert_eq!(answer.rdata_offset, response.len() - 5);
}

#[test]
fn non_ns_record_has_no_name_server() {
    let response = synthetic_ns_response("example.com", &["ns.example.com"]);
    let answers = parse_dns_response(&response).unwrap();
    let mut other = answers[0].clone();
    other.record_type = 1;
    assert_eq!(other.name_server(&response), Err(DnsError::NotNameServer));
    assert_eq!(
        DnsError::NotNameServer.message(),
        "not a name server record".to_string()
    );
}

#[test]
fn truncated_rdata_is_error() {
    let mut response = synthetic_ns_response("example.com", &["ns.example.com"]);
    // Cut the last byte: the declared resource-data length now overruns.
    response.pop();
    assert_eq!(get_nameservers(&response), Err(DnsError::TruncatedMessage));
}
