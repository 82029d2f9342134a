use dns_codec::error::DnsError;
use dns_codec::label::{decode_label, encode_label, to_encoded_label};

#[test]
fn test_encode_label() {
    let input_string = "google.com".to_string();
    let expected_vec: Vec<u8> = vec![6, 103, 111, 111, 103, 108, 101, 3, 99, 111, 109, 0];
    assert_eq!(encode_label(&input_string).unwrap(), expected_vec);
}

#[test]
fn test_decode_label() {
    let input_bytes = vec![6, 103, 111, 111, 103, 108, 101, 3, 99, 111, 109, 0];
    let expected_string = "google.com".to_string();
    assert_eq!(decode_label(&input_bytes).unwrap(), expected_string);
}

#[test]
fn test_to_encoded_label() {
    let input_string = "google.com".to_string();
    let expected_vec: Vec<u8> = vec![6, 103, 111, 111, 103, 108, 101, 3, 99, 111, 109, 0];
    assert_eq!(to_encoded_label(&input_string).unwrap(), expected_vec);
}

#[test]
fn short_name_encodes_to_its_labels() {
    // name "a.b" becomes one-byte labels: [1, 'a', 1, 'b', 0]
    let name = "a.b".to_string();
    assert_eq!(encode_label(&name).unwrap(), vec![1, b'a', 1, b'b', 0]);
}

#[test]
fn root_name_encodes_to_terminator_alone() {
    let name = "".to_string();
    assert_eq!(encode_label(&name).unwrap(), vec![0]);
}

#[test]
fn round_trip_through_the_wire_form() {
    let name = "www.example.com".to_string();
    let wire = encode_label(&name).unwrap();
    assert_eq!(decode_label(&wire).unwrap(), name);
}

#[test]
fn round_trip_of_the_root_name() {
    let name = "".to_string();
    let wire = encode_label(&name).unwrap();
    assert_eq!(decode_label(&wire).unwrap(), name);
}

#[test]
fn oversized_segment_is_rejected() {
    let name: String = std::iter::repeat('a').take(256).collect();
    assert_eq!(encode_label(&name), Err(DnsError::EncodingError));
}

#[test]
fn character_past_one_byte_is_rejected() {
    let name = "na\u{0100}me".to_string();
    assert_eq!(encode_label(&name), Err(DnsError::EncodingError));
}

#[test]
fn length_byte_past_the_end_is_truncation() {
    let input_bytes = vec![5, 97, 98];
    assert_eq!(decode_label(&input_bytes), Err(DnsError::TruncatedRecord));
}
