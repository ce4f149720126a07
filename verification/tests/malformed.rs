use minecraft_world::{Error, NbtList, NbtValue};
use std::io::Write;

#[test]
fn truncation_always_malformed() {
    let mut c = NbtValue::Compound(Vec::new());
    c.insert("Nice".to_string(), NbtValue::Byte(-69));
    c.insert("nums".to_string(), NbtValue::List(NbtList::IntList(vec![1, 2, 3])));
    c.insert("text".to_string(), NbtValue::String("abc".to_string()));
    let bytes = c.to_bytes("root").unwrap();
    for m in 0..bytes.len() {
        let r = NbtValue::from_bytes(&bytes[..m]);
        assert!(matches!(r, Err(Error::Malformed(_))), "prefix of {} bytes", m);
    }
}

#[test]
fn empty_input_is_malformed() {
    assert!(matches!(NbtValue::from_bytes(&[]), Err(Error::Malformed(_))));
}

#[test]
fn tag_thirteen_is_rejected() {
    let bytes: Vec<u8> = vec![0x0D, 0x00, 0x00, 0x01];
    assert!(matches!(NbtValue::from_bytes(&bytes), Err(Error::Malformed(_))));
}

#[test]
fn root_end_tag_is_rejected() {
    let bytes: Vec<u8> = vec![0x00, 0x00, 0x00];
    assert!(matches!(NbtValue::from_bytes(&bytes), Err(Error::Malformed(_))));
}

#[test]
fn nested_bad_tag_is_rejected() {
    // Compound with empty name, then a field tagged 0xFF.
    let bytes: Vec<u8> = vec![0x0A, 0x00, 0x00, 0xFF, 0x00, 0x00];
    assert!(matches!(NbtValue::from_bytes(&bytes), Err(Error::Malformed(_))));
}

#[test]
fn invalid_utf8_name_is_rejected() {
    // Byte value whose one-byte name is not UTF-8, length consistent.
    let bytes: Vec<u8> = vec![0x01, 0x00, 0x01, 0xFF, 0x2A];
    assert!(matches!(NbtValue::from_bytes(&bytes), Err(Error::Malformed(_))));
}

#[test]
fn invalid_utf8_string_payload_is_rejected() {
    // String value, empty name, declared payload length 2, bytes not UTF-8.
    let bytes: Vec<u8> = vec![0x08, 0x00, 0x00, 0x00, 0x02, 0xC3, 0x28];
    assert!(matches!(NbtValue::from_bytes(&bytes), Err(Error::Malformed(_))));
}

#[test]
fn end_tagged_list_is_empty_whatever_the_count() {
    // List value, empty name, element tag End, count 5.
    let bytes: Vec<u8> = vec![0x09, 0x00, 0x00, 0x00, 0x00, 0x00, 0x00, 0x05];
    let (name, value) = NbtValue::from_bytes(&bytes).unwrap();
    assert_eq!(name, "");
    assert_eq!(value, NbtValue::List(NbtList::EmptyList));
}

#[test]
fn end_tagged_list_accepts_negative_count() {
    let bytes: Vec<u8> = vec![0x09, 0x00, 0x00, 0x00, 0xFF, 0xFF, 0xFF, 0xFF];
    let (_, value) = NbtValue::from_bytes(&bytes).unwrap();
    assert_eq!(value, NbtValue::List(NbtList::EmptyList));
}

#[test]
fn negative_array_length_is_rejected() {
    let bytes: Vec<u8> = vec![0x07, 0x00, 0x00, 0xFF, 0xFF, 0xFF, 0xFF];
    assert!(matches!(NbtValue::from_bytes(&bytes), Err(Error::Malformed(_))));
}

#[test]
fn negative_list_count_is_rejected() {
    let bytes: Vec<u8> = vec![0x09, 0x00, 0x00, 0x01, 0xFF, 0xFF, 0xFF, 0xFF];
    assert!(matches!(NbtValue::from_bytes(&bytes), Err(Error::Malformed(_))));
}

#[test]
fn nesting_deeper_than_the_budget_is_rejected() {
    // 600 nested compounds, each holding the next under a one-byte key.
    let mut bytes: Vec<u8> = vec![0x0A, 0x00, 0x00];
    for _ in 0..600 {
        bytes.extend_from_slice(&[0x0A, 0x00, 0x01, b'k']);
    }
    bytes.extend_from_slice(&[0x00; 601]);
    assert!(matches!(NbtValue::from_bytes(&bytes), Err(Error::Malformed(_))));
}

#[test]
fn oversized_string_fails_encoding() {
    let doc = NbtValue::String("a".repeat(70_000));
    assert!(matches!(doc.to_bytes("x"), Err(Error::Malformed(_))));
}

#[test]
fn oversized_name_fails_encoding() {
    let doc = NbtValue::Byte(1);
    let name = "n".repeat(70_000);
    assert!(matches!(doc.to_bytes(&name), Err(Error::Malformed(_))));
}

#[test]
fn oversized_key_inside_compound_fails_encoding() {
    let mut c = NbtValue::Compound(Vec::new());
    c.insert("k".repeat(70_000), NbtValue::Byte(1));
    assert!(matches!(c.to_bytes(""), Err(Error::Malformed(_))));
}

#[test]
fn multibyte_name_length_counts_bytes_not_chars() {
    // 40 000 two-byte characters: 80 000 UTF-8 bytes, over the 16-bit cap.
    let name = "ä".repeat(40_000);
    assert!(matches!(NbtValue::Byte(1).to_bytes(&name), Err(Error::Malformed(_))));
    // 30 000 two-byte characters fit.
    let name = "ä".repeat(30_000);
    assert!(NbtValue::Byte(1).to_bytes(&name).is_ok());
}

#[test]
fn garbage_compressed_stream_is_a_compression_error() {
    let bytes: Vec<u8> = vec![0x00, 0x01, 0x02, 0x03, 0x04];
    assert!(matches!(
        NbtValue::from_compressed_bytes(&bytes),
        Err(Error::CompressionError)
    ));
}

#[test]
fn truncated_compressed_stream_fails() {
    let packed = NbtValue::Byte(1).to_compressed_bytes("x").unwrap();
    let cut = &packed[..packed.len() - 1];
    assert!(NbtValue::from_compressed_bytes(cut).is_err());
}

#[test]
fn malformed_bytes_inside_valid_gzip() {
    // A valid gzip stream holding a bad tag byte.
    let packed = gzip_of(&[0x0D, 0x00, 0x00]);
    assert!(matches!(
        NbtValue::from_compressed_bytes(&packed),
        Err(Error::Malformed(_))
    ));
}

fn gzip_of(data: &[u8]) -> Vec<u8> {
    let mut enc = flate2::write::GzEncoder::new(Vec::new(), flate2::Compression::new(9));
    enc.write_all(data).unwrap();
    enc.finish().unwrap()
}
