use dns_codec::compression::decompress_domain_name;
use dns_codec::error::DnsError;
use dns_codec::label::decode_label;

/// A buffer shaped like a message: 12 filler bytes where the header would
/// be, the wire name `abc.de` at offset 12, four record bytes, then a
/// second name encoded purely as a pointer back to offset 12.
fn message_with_pointer() -> Vec<u8> {
    let mut full = vec![0u8; 12];
    full.extend_from_slice(&[3, b'a', b'b', b'c', 2, b'd', b'e', 0]);
    full.extend_from_slice(&[0, 1, 0, 1]);
    full.extend_from_slice(&[0xC0, 12]);
    full
}

#[test]
fn pointer_resolves_to_the_name_at_its_offset() {
    let full = message_with_pointer();
    let (first_wire, first_used) = decompress_domain_name(&full[12..], &full).unwrap();
    assert_eq!(first_used, 8);
    let (second_wire, second_used) = decompress_domain_name(&full[24..], &full).unwrap();
    // the pointer consumed exactly its own 2 bytes
    assert_eq!(second_used, 2);
    // and both names decode to the identical string
    assert_eq!(second_wire, first_wire);
    assert_eq!(decode_label(&second_wire).unwrap(), "abc.de".to_string());
}

#[test]
fn plain_name_consumes_its_own_bytes() {
    let comp = vec![3, b'f', b'o', b'o', 0, 9, 9];
    let (wire, used) = decompress_domain_name(&comp, &comp).unwrap();
    assert_eq!(used, 5);
    assert_eq!(wire, vec![3, b'f', b'o', b'o', 0]);
}

#[test]
fn pointer_past_the_message_is_malformed() {
    let full = vec![0u8; 4];
    let comp = vec![0xC0, 200];
    assert_eq!(
        decompress_domain_name(&comp, &full),
        Err(DnsError::MalformedPointer)
    );
}

#[test]
fn pointer_cycle_is_caught_by_the_hop_limit() {
    // the byte pair at offset 0 points at itself
    let full = vec![0xC0, 0];
    assert_eq!(
        decompress_domain_name(&full, &full),
        Err(DnsError::PointerLoop)
    );
}

#[test]
fn name_running_past_the_end_is_truncation() {
    let comp = vec![3, b'a', b'b'];
    assert_eq!(
        decompress_domain_name(&comp, &comp),
        Err(DnsError::TruncatedRecord)
    );
}
