use rust_dns::error::{DnsError, ParseError, ResponseCodeError};
use rust_dns::message::{
    error_in_message, Encodable, Header, Message, Question, ResourceRecord, ResponseType,
};

#[test]
fn test_header_encode_from_bytes_eq() {
    let header = Header::new(1, false, false, false, false, 0);
    let mut buf = Vec::new();
    header.encode(&mut buf);
    let output = Header::from_bytes(&buf);

    assert_eq!(output.unwrap(), header);
}

#[test]
fn test_question_encode_from_bytes_eq() {
    let domains: [u8; 12] = [
        6, b'g', b'o', b'o', b'g', b'l', b'e', 3, b'c', b'o', b'm', 0,
    ];
    let question = Question {
        qname: domains.to_vec(),
        qtype: 1,
        qclass: 1,
    };
    let mut buf = Vec::new();
    question.encode(&mut buf);
    let output = Question::from_bytes(&buf, 0);
    match output {
        Ok((q, s)) => {
            assert_eq!(q, question);
            assert_eq!(s, 12 + 4);
        }
        _ => panic!("Question::from_bytes failed"),
    }
}

#[test]
fn test_question_from_bytes_fail() {
    let buf: [u8; 12] = [
        6, b'g', b'o', b'o', b'g', b'l', b'e', 3, b'c', b'o', b'm', 0,
    ];
    let output = Question::from_bytes(&buf, 0);
    match output {
        Err(ParseError::InvalidQuestion) => {}
        _ => panic!("Bytes are not long enough"),
    }
}

#[test]
fn test_rr_encode_from_bytes_eq() {
    let domains: [u8; 12] = [
        6, b'g', b'o', b'o', b'g', b'l', b'e', 3, b'c', b'o', b'm', 0,
    ];
    let rdata = [b'1', b'2', b'3'];
    let rr = ResourceRecord {
        rname: domains.to_vec(),
        rtype: 1,
        rclass: 1,
        ttl: 1,
        rdlength: rdata.len() as u16,
        rdata: rdata.to_vec(),
    };
    let mut buf = Vec::new();
    rr.encode(&mut buf);
    let output = ResourceRecord::from_bytes(&buf, 0);
    match output {
        Ok((r, s)) => {
            assert_eq!(r, rr);
            assert_eq!(s, 12 + 10 + rdata.len());
        }
        _ => panic!("ResourceRecord::from_bytes failed"),
    }
}

#[test]
fn test_message_encode_from_bytes_eq() {
    let domains: [u8; 12] = [
        6, b'g', b'o', b'o', b'g', b'l', b'e', 3, b'c', b'o', b'm', 0,
    ];
    let message = Message::new(1, &domains);
    let mut buf = Vec::new();
    message.encode(&mut buf);
    let output = Message::from_bytes(&buf);
    match output {
        Ok(m) => {
            assert_eq!(m, message);
        }
        _ => panic!("Message::from_bytes failed"),
    }
}

#[test]
fn test_rr_from_bytes_out_of_bounds() {
    // minimal invalid record: too short for rdata
    let bad = [
        3, b'w', b'w', b'w', 7, b'e', b'x', b'a', b'm', b'p', b'l', b'e', 3, b'c', b'o', b'm',
        0, 0, 1, 0, 1, // type/class
        0, 0, 0, 0, // ttl
        0, 4, // rdlength claims 4
        1, 2, // but only 2 bytes of rdata!
    ];
    let result = ResourceRecord::from_bytes(&bad, 0);
    assert!(matches!(result, Err(ParseError::InvalidResourcRecord)));
}

#[test]
fn test_header_flags_rcode_handling() {
    let mut bytes = [0u8; 12];
    bytes[3] = 3; // set rcode = 3 (NameError)
    let header = Header::from_bytes(&bytes).unwrap();
    let res = header.check_error();
    assert!(matches!(res, Err(ResponseCodeError::NameError)));
}

#[test]
fn test_empty_message_parses_as_error() {
    // A message of exactly 12 bytes with all counts zero parses
    // successfully and is classified as Error.
    let bytes = [0u8; 12];
    let message = Message::from_bytes(&bytes).unwrap();
    assert_eq!(message.get_ancount(), 0);
    assert_eq!(message.get_nscount(), 0);
    assert_eq!(message.get_arcount(), 0);
    assert_eq!(message.get_type(), ResponseType::Error);
}

#[test]
fn test_error_in_message_accepts_valid_response() {
    // id 0x0102, rcode 0, one answer announced.
    let mut bytes = [0u8; 12];
    bytes[0] = 1;
    bytes[1] = 2;
    bytes[7] = 1;
    assert!(error_in_message(0x0102, &bytes).is_ok());
}

#[test]
fn test_error_in_message_short_buffer() {
    let bytes = [0u8; 11];
    let res = error_in_message(0, &bytes);
    assert!(matches!(
        res,
        Err(DnsError::ParsingError(ParseError::InvalidHeader))
    ));
}

#[test]
fn test_error_in_message_id_mismatch() {
    let mut bytes = [0u8; 12];
    bytes[1] = 9;
    bytes[7] = 1;
    let res = error_in_message(7, &bytes);
    assert!(matches!(res, Err(DnsError::InvalidResponseID)));
}

#[test]
fn test_error_in_message_rcodes() {
    let cases = [
        (1u8, ResponseCodeError::FormatError),
        (2, ResponseCodeError::ServerFailure),
        (3, ResponseCodeError::NameError),
        (4, ResponseCodeError::NotImplemented),
        (5, ResponseCodeError::Refused),
    ];
    for (rcode, expected) in cases {
        let mut bytes = [0u8; 12];
        bytes[3] = rcode;
        bytes[7] = 1;
        let res = error_in_message(0, &bytes);
        assert_eq!(res, Err(DnsError::ResponseCodeError(expected)));
    }
    // rcodes 6 through 15 are treated as success.
    let mut bytes = [0u8; 12];
    bytes[3] = 6;
    bytes[7] = 1;
    assert!(error_in_message(0, &bytes).is_ok());
}

#[test]
fn test_error_in_message_empty_sections() {
    // id matches, rcode 0, but no answers and no authorities.
    let bytes = [0u8; 12];
    let res = error_in_message(0, &bytes);
    assert!(matches!(res, Err(DnsError::InvalidFormat)));
}

#[test]
fn test_message_id_handling() {
    let domains = [1, b'a', 0];
    let mut message = Message::new(41, &domains);
    assert_eq!(message.get_id(), 41);
    message.inc();
    assert_eq!(message.get_id(), 42);
    let mut message = Message::new(0xFFFF, &domains);
    message.inc();
    assert_eq!(message.get_id(), 0);
}

#[test]
fn test_check_error_response() {
    let domains = [1, b'a', 0];
    let request = Message::new(5, &domains);
    let ok_response = Message::new(5, &domains);
    assert!(ok_response.check_error_response(&request).is_ok());
    let other_id = Message::new(6, &domains);
    assert!(matches!(
        other_id.check_error_response(&request),
        Err(DnsError::InvalidResponseID)
    ));
}

#[test]
fn test_is_cname() {
    let name = [1, b'a', 0];
    let mut bytes = vec![0, 1, 0, 0, 0, 0, 0, 1, 0, 0, 0, 0];
    bytes.extend_from_slice(&name);
    bytes.extend_from_slice(&[0, 5, 0, 1, 0, 0, 0, 0, 0, 3]);
    bytes.extend_from_slice(&name);
    let message = Message::from_bytes(&bytes).unwrap();
    assert!(message.is_cname());

    let plain = Message::new(1, &name);
    assert!(!plain.is_cname());
}

#[test]
fn test_new_id_keeps_question() {
    let domains = [1, b'a', 0];
    let mut message = Message::new(3, &domains);
    message.new_id();
    let other = Message::new(message.get_id(), &domains);
    assert_eq!(message, other);
}

#[test]
fn test_error_messages() {
    assert_eq!(DnsError::MaxDepth.message(), "Max depth reached");
    assert_eq!(
        DnsError::ParsingError(ParseError::InvalidHeader).message(),
        "Header is not large enough"
    );
    assert_eq!(
        DnsError::ResponseCodeError(ResponseCodeError::NameError).message(),
        "The domain name referenced in the query does not exist"
    );
}
