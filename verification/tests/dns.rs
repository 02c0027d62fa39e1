use bridge_checker::dns::{
    craft_query, u8_to_u16, u8_to_u32, Header, Query, ResourceRecord, Response,
};
use bridge_checker::numerals::{digit, push_decimal, push_hex};

#[test]
fn craft_query_encodes_labels() {
    let q = craft_query("example.com");
    assert_eq!(q.header.identification, 0x304e);
    assert_eq!(q.header.packed_second_row, 0x0100);
    assert_eq!(q.header.qdcount, 1);
    assert_eq!(q.header.ancount, 0);
    assert_eq!(q.header.nscount, 0);
    assert_eq!(q.header.arcount, 0);
    assert_eq!(q.qname, b"\x07example\x03com\x00".to_vec());
    assert_eq!(q.qtype, 1);
    assert_eq!(q.qclass, 1);
}

#[test]
fn craft_query_edge_cases() {
    assert_eq!(craft_query("").qname, vec![0, 0]);
    assert_eq!(craft_query("a.").qname, vec![1, b'a', 0, 0]);
    assert_eq!(craft_query(".").qname, vec![0, 0, 0]);
    assert_eq!(craft_query("localhost").qname, b"\x09localhost\x00".to_vec());
    let long = "x".repeat(300);
    let q = craft_query(&long);
    assert_eq!(q.qname[0], 44);
    assert_eq!(q.qname.len(), 302);
}

#[test]
fn query_as_bytes_sets_length_prefix() {
    let bytes = craft_query("example.com").as_bytes();
    let mut expected = vec![0x00, 0x1d, 0x30, 0x4e, 0x01, 0x00, 0x00, 0x01, 0, 0, 0, 0, 0, 0];
    expected.extend_from_slice(b"\x07example\x03com\x00");
    expected.extend_from_slice(&[0, 1, 0, 1]);
    assert_eq!(bytes, expected);
    assert_eq!(bytes.len() - 2, 0x1d);
}

#[test]
fn header_as_bytes_has_placeholder_length() {
    let h = Header {
        identification: 0x1234,
        packed_second_row: 0x8180,
        qdcount: 1,
        ancount: 2,
        nscount: 3,
        arcount: 0x0405,
    };
    assert_eq!(
        h.as_bytes(),
        vec![0x00, 0x33, 0x12, 0x34, 0x81, 0x80, 0, 1, 0, 2, 0, 3, 4, 5]
    );
}

#[test]
fn header_from_bytes_checks_flags_and_length() {
    let good = [0x12, 0x34, 0x81, 0x80, 0, 1, 0, 2, 0, 3, 4, 5];
    let h = *Header::from_bytes(&good).unwrap();
    assert_eq!(h.identification, 0x1234);
    assert_eq!(h.packed_second_row, 0x8180);
    assert_eq!(h.qdcount, 1);
    assert_eq!(h.ancount, 2);
    assert_eq!(h.nscount, 3);
    assert_eq!(h.arcount, 0x0405);
    let mut bad = good;
    bad[3] = 0x83;
    assert!(Header::from_bytes(&bad).is_none());
    assert!(Header::from_bytes(&good[..11]).is_none());
    assert!(Header::from_bytes(&[]).is_none());
}

fn sample_message() -> Vec<u8> {
    let mut m = vec![0x30, 0x4e, 0x81, 0x80, 0, 1, 0, 2, 0, 0, 0, 0];
    m.extend_from_slice(b"\x07example\x03com\x00");
    m.extend_from_slice(&[0, 1, 0, 1]);
    m
}

#[test]
fn query_from_bytes_reads_dotted_name() {
    let q = *Query::from_bytes(&sample_message()).unwrap();
    assert_eq!(q.qname, b"example.com".to_vec());
    assert_eq!(q.qtype, 1);
    assert_eq!(q.qclass, 1);
    assert_eq!(q.header.ancount, 2);
    assert_eq!(q.len(), 12 + 1 + 11 + 2 + 2);
}

#[test]
fn query_from_bytes_without_closing_zero_reads_fields_from_start() {
    let mut m = vec![0x30, 0x4e, 0x81, 0x80, 0, 1, 0, 2, 0, 0, 0, 0];
    m.extend_from_slice(b"\x03abc");
    let q = *Query::from_bytes(&m).unwrap();
    assert_eq!(q.qname, b"abc".to_vec());
    assert_eq!(q.qtype, 0x304e);
    assert_eq!(q.qclass, 0x8180);
}

#[test]
fn query_from_bytes_truncated_after_name_is_none() {
    let mut m = sample_message();
    m.truncate(m.len() - 1);
    assert!(Query::from_bytes(&m).is_none());
    assert!(Query::from_bytes(&m[..5]).is_none());
}

fn sample_record(last: u8) -> Vec<u8> {
    vec![0xc0, 0x0c, 0, 1, 0, 1, 0, 0, 0x01, 0x2c, 0, 4, 93, 184, 216, last]
}

#[test]
fn record_from_bytes_reads_from_second_byte() {
    let bytes = sample_record(34);
    let r = *ResourceRecord::from_bytes(&bytes).unwrap();
    assert_eq!(r.rtype, 0x0c00);
    assert_eq!(r.class, 0x0100);
    assert_eq!(r.ttl, 0x0100_0001);
    assert_eq!(r.rdlength, 0x2c00);
    assert_eq!(r.rdata, [4, 93, 184, 216]);
    assert_eq!(r.len(), 16);
    assert!(ResourceRecord::from_bytes(&bytes[..14]).is_none());
    assert!(ResourceRecord::from_bytes(&bytes[..15]).is_some());
}

#[test]
fn response_from_bytes_reads_query_and_records() {
    let mut wire = vec![0x00, 0x00];
    wire.extend_from_slice(&sample_message());
    // records are looked for 2 + query.len() + 2 bytes in
    let start = 2 + (12 + 1 + 11 + 2 + 2) + 2;
    while wire.len() < start {
        wire.push(0xaa);
    }
    wire.extend_from_slice(&sample_record(34));
    wire.extend_from_slice(&sample_record(35));
    let r = *Response::from_bytes(&wire).unwrap();
    assert_eq!(r.query.qname, b"example.com".to_vec());
    assert_eq!(r.rr.len(), 2);
    assert_eq!(r.rr[0].rdata, [4, 93, 184, 216]);
    assert_eq!(r.rr[1].ttl, 0x0100_0001);
    assert!(Response::from_bytes(&[0]).is_none());
    assert!(Response::from_bytes(&wire[..10]).is_none());
}

#[test]
fn response_without_room_for_records_has_none() {
    let mut wire = vec![0x00, 0x00];
    wire.extend_from_slice(&sample_message());
    let r = *Response::from_bytes(&wire).unwrap();
    assert!(r.rr.is_empty());
}

#[test]
fn header_to_text_is_hexadecimal_lines() {
    let h = Header {
        identification: 0x304e,
        packed_second_row: 0x8180,
        qdcount: 1,
        ancount: 0,
        nscount: 10,
        arcount: 0xffff,
    };
    assert_eq!(
        h.to_text(),
        "ID: 0x304e\nFlags: 0x8180\nQDCOUNT: 0x1\nANCOUNT: 0x0\nNSCOUNT: 0xa\nARCOUNT: 0xffff\n"
    );
}

#[test]
fn record_to_text_shows_address() {
    let r = ResourceRecord { rtype: 1, class: 1, ttl: 300, rdlength: 4, rdata: [93, 184, 216, 34] };
    assert_eq!(
        r.to_text(),
        "RR record type: 0x1\nRR class: 0x1\nTTL: 300\nRDLENGTH: 0x4\nIP address: 93.184.216.34\n"
    );
}

#[test]
fn response_to_text_lists_records() {
    let q = *Query::from_bytes(&sample_message()).unwrap();
    let header_text = q.header.to_text();
    let rr = ResourceRecord { rtype: 1, class: 1, ttl: 0, rdlength: 4, rdata: [1, 2, 3, 4] };
    let rr_text = rr.to_text();
    let r = Response { query: q, rr: vec![rr] };
    let expected = format!(
        "{}\nName: example.com\nRes type: 0x1\nClass: 0x1\n\n{}\n",
        header_text, rr_text
    );
    assert_eq!(r.to_text(), Some(expected));
}

#[test]
fn response_to_text_refuses_invalid_utf8_name() {
    let mut q = *Query::from_bytes(&sample_message()).unwrap();
    q.qname = vec![0xff, 0xfe];
    let r = Response { query: q, rr: Vec::new() };
    assert_eq!(r.to_text(), None);
}

#[test]
fn big_endian_helpers() {
    assert_eq!(u8_to_u16(0x12, 0x34), 0x1234);
    assert_eq!(u8_to_u16(0xff, 0xff), 0xffff);
    assert_eq!(u8_to_u32(&[1, 2, 3, 4]), 0x01020304);
    assert_eq!(u8_to_u32(&[1]), 0x01000000);
    assert_eq!(u8_to_u32(&[]), 0);
}

#[test]
fn numerals() {
    assert_eq!(digit(0), '0');
    assert_eq!(digit(9), '9');
    assert_eq!(digit(10), 'a');
    assert_eq!(digit(15), 'f');
    let mut out = Vec::new();
    push_decimal(&mut out, 0);
    push_decimal(&mut out, 4294967295);
    push_hex(&mut out, 0xdead_beef);
    assert_eq!(out.into_iter().collect::<String>(), "04294967295deadbeef");
}
