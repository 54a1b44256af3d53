use rust_dns::algorithm::{
    initial_servers, print_domain, process_response, root_server_ip, servers_from_ips,
    ResolutionStep, MAX_DEPTH, PORT,
};
use rust_dns::compression::CompressedName;
use rust_dns::error::{DnsError, ParseError};
use rust_dns::net::{bytes_to_ip, convert_mapped_addr, source_matches, IpAddress};

/// A delegation response: one NS authority record for `ns.ex`, and, when
/// `with_glue` is set, one additional A record giving that server 9.9.9.9.
fn delegation_response(with_glue: bool) -> Vec<u8> {
    let ns_name = [2, b'n', b's', 2, b'e', b'x', 0];
    let mut bytes = vec![
        0, 1, // id
        0, 0, // flags
        0, 0, // qdcount
        0, 0, // ancount
        0, 1, // nscount
        0, if with_glue { 1 } else { 0 }, // arcount
    ];
    // authority: root name, NS, IN, ttl 0, the nameserver's name as data
    bytes.push(0);
    bytes.extend_from_slice(&[0, 2, 0, 1, 0, 0, 0, 0, 0, ns_name.len() as u8]);
    bytes.extend_from_slice(&ns_name);
    if with_glue {
        // additional: the nameserver's name, A, IN, ttl 0, 4 address bytes
        bytes.extend_from_slice(&ns_name);
        bytes.extend_from_slice(&[0, 1, 0, 1, 0, 0, 0, 0, 0, 4]);
        bytes.extend_from_slice(&[9, 9, 9, 9]);
    }
    bytes
}

#[test]
fn test_process_response_answer() {
    let mut bytes = vec![
        0, 1, // id
        0, 0, // flags
        0, 0, 0, 1, 0, 0, 0, 0, // counts: one answer
    ];
    bytes.push(0); // root name
    bytes.extend_from_slice(&[0, 1, 0, 1, 0, 0, 0, 0, 0, 4]);
    bytes.extend_from_slice(&[93, 184, 216, 34]);
    let domain = [2, b'e', b'x', 0];
    match process_response(&bytes, &domain) {
        ResolutionStep::Answered(ips) => {
            assert_eq!(ips, vec![IpAddress::V4(0x5DB8_D822)]);
        }
        step => panic!("expected an answer, got {:?}", step),
    }
}

#[test]
fn test_process_response_answer_aaaa() {
    let mut bytes = vec![0, 1, 0, 0, 0, 0, 0, 1, 0, 0, 0, 0];
    bytes.push(0); // root name
    bytes.extend_from_slice(&[0, 28, 0, 1, 0, 0, 0, 0, 0, 16]);
    bytes.extend_from_slice(&[0, 0, 0, 0, 0, 0, 0, 0, 0, 0, 0, 0, 0, 0, 0, 9]);
    let domain = [2, b'e', b'x', 0];
    match process_response(&bytes, &domain) {
        ResolutionStep::Answered(ips) => {
            assert_eq!(ips, vec![IpAddress::V6(9)]);
        }
        step => panic!("expected an answer, got {:?}", step),
    }
}

#[test]
fn test_process_response_cname_to_itself() {
    // The answer is a single CNAME whose target is its own name. The step
    // says to follow the alias; the caller's depth budget bounds the walk.
    let name = [1, b'a', 0];
    let mut bytes = vec![0, 1, 0, 0, 0, 0, 0, 1, 0, 0, 0, 0];
    bytes.extend_from_slice(&name);
    bytes.extend_from_slice(&[0, 5, 0, 1, 0, 0, 0, 0, 0, 3]);
    bytes.extend_from_slice(&name);
    match process_response(&bytes, &name) {
        ResolutionStep::FollowCnames(cnames) => {
            assert_eq!(cnames, vec![CompressedName(vec![name.to_vec()])]);
        }
        step => panic!("expected an alias to follow, got {:?}", step),
    }
}

#[test]
fn test_process_response_delegation_with_glue() {
    let bytes = delegation_response(true);
    let domain = [2, b'e', b'x', 0];
    match process_response(&bytes, &domain) {
        ResolutionStep::NextServers(servers) => {
            assert_eq!(servers.len(), 1);
            assert_eq!(servers[0].ip, Some(IpAddress::V4(0x0909_0909)));
            assert_eq!(
                servers[0].name,
                CompressedName(vec![vec![2, b'n', b's', 2, b'e', b'x', 0]])
            );
        }
        step => panic!("expected new servers, got {:?}", step),
    }
}

#[test]
fn test_process_response_delegation_without_glue() {
    let bytes = delegation_response(false);
    let domain = [2, b'e', b'x', 0];
    match process_response(&bytes, &domain) {
        ResolutionStep::ResolveNameservers(names) => {
            assert_eq!(
                names,
                vec![CompressedName(vec![vec![2, b'n', b's', 2, b'e', b'x', 0]])]
            );
        }
        step => panic!("expected nameserver names, got {:?}", step),
    }
}

#[test]
fn test_process_response_empty_is_rejected() {
    let bytes = [0u8; 12];
    let domain = [2, b'e', b'x', 0];
    match process_response(&bytes, &domain) {
        ResolutionStep::Reject(e) => assert_eq!(e, DnsError::InvalidFormat),
        step => panic!("expected a rejection, got {:?}", step),
    }
}

#[test]
fn test_process_response_short_buffer_is_rejected() {
    let bytes = [0u8; 5];
    let domain = [2, b'e', b'x', 0];
    match process_response(&bytes, &domain) {
        ResolutionStep::Reject(e) => {
            assert_eq!(e, DnsError::ParsingError(ParseError::InvalidHeader));
        }
        step => panic!("expected a rejection, got {:?}", step),
    }
}

#[test]
fn test_constants() {
    assert_eq!(MAX_DEPTH, 8);
    assert_eq!(PORT, 53);
    assert_eq!(root_server_ip(), IpAddress::V4(0xC629_0004));
}

#[test]
fn test_initial_servers_hold_the_root() {
    let servers = initial_servers();
    assert_eq!(servers.len(), 1);
    assert_eq!(servers[0].ip, Some(root_server_ip()));
    assert_eq!(servers[0].name.display_bytes(), b".".to_vec());
}

#[test]
fn test_servers_from_ips() {
    let ips = vec![IpAddress::V4(7), IpAddress::V6(9)];
    let servers = servers_from_ips(&ips);
    assert_eq!(servers.len(), 2);
    assert_eq!(servers[0].ip, Some(IpAddress::V4(7)));
    assert_eq!(servers[1].ip, Some(IpAddress::V6(9)));
    assert_eq!(servers[0].name, CompressedName(Vec::new()));
}

#[test]
fn test_bytes_to_ip() {
    assert_eq!(bytes_to_ip(&[1, 2, 3, 4]), Some(IpAddress::V4(0x0102_0304)));
    let v6 = [0, 0, 0, 0, 0, 0, 0, 0, 0, 0, 0, 0, 0, 0, 0, 1];
    assert_eq!(bytes_to_ip(&v6), Some(IpAddress::V6(1)));
    assert_eq!(bytes_to_ip(&[1, 2, 3]), None);
    assert_eq!(bytes_to_ip(&[]), None);
}

#[test]
fn test_convert_mapped_addr() {
    let mapped = IpAddress::V6((0xFFFFu128 << 32) | 0x0102_0304);
    assert_eq!(convert_mapped_addr(mapped), IpAddress::V4(0x0102_0304));
    let plain = IpAddress::V6(0x2001_0db8);
    assert_eq!(convert_mapped_addr(plain), plain);
    let v4 = IpAddress::V4(5);
    assert_eq!(convert_mapped_addr(v4), v4);
}

#[test]
fn test_source_mismatch_is_detected() {
    // A response from the address the query went to is accepted, also when
    // it arrives as an IPv4-mapped IPv6 source; any other source is not.
    let target = IpAddress::V4(0x0102_0304);
    assert!(source_matches(&target, &IpAddress::V4(0x0102_0304)));
    assert!(source_matches(
        &target,
        &IpAddress::V6((0xFFFFu128 << 32) | 0x0102_0304)
    ));
    assert!(!source_matches(&target, &IpAddress::V4(0x0102_0305)));
    assert!(!source_matches(&target, &IpAddress::V6(0x0102_0304)));
}

#[test]
fn test_print_domain() {
    let wire = [3, b'w', b'w', b'w', 2, b'e', b'x', 0];
    assert_eq!(print_domain(&wire), b"www.ex.".to_vec());
}
