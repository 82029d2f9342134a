use dns_codec::header::DNSHeader;

fn sample_header() -> DNSHeader {
    DNSHeader {
        id: 0x1234,
        qr: 1,
        opcode: 9,
        aa: 1,
        tc: 0,
        rd: 1,
        ra: 1,
        z: 5,
        rcode: 12,
        qdcount: 3,
        ancount: 2,
        nscount: 1,
        arcount: 65535,
    }
}

#[test]
fn header_round_trips_through_its_bytes() {
    let h = sample_header();
    let bytes = h.to_bytes();
    assert_eq!(DNSHeader::from_bytes(&bytes), h);
}

#[test]
fn header_packs_into_the_documented_bit_positions() {
    let h = DNSHeader {
        id: 0x04D2,
        qr: 1,
        opcode: 0,
        aa: 0,
        tc: 0,
        rd: 1,
        ra: 0,
        z: 0,
        rcode: 0,
        qdcount: 1,
        ancount: 1,
        nscount: 0,
        arcount: 0,
    };
    // byte 2 is qr|opcode|aa|tc|rd = 1000_0001, byte 3 is ra|z|rcode = 0
    let expected: [u8; 12] = [0x04, 0xD2, 0x81, 0x00, 0, 1, 0, 1, 0, 0, 0, 0];
    assert_eq!(h.to_bytes(), expected);
}

#[test]
fn all_zero_bytes_unpack_to_the_zero_header() {
    let h = DNSHeader::from_bytes(&[0; 12]);
    assert_eq!(h.id, 0);
    assert_eq!(h.qr, 0);
    assert_eq!(h.opcode, 0);
    assert_eq!(h.qdcount, 0);
    assert_eq!(h.ancount, 0);
}
