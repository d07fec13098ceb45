use broker::protocol::transport::{text_decode, text_encode};
use broker::verde::render::render_bytes;

#[test]
fn base64_round_trips_arbitrary_bytes() {
    let bytes = vec![0x00, 0x01, 0x7f, 0x80, 0xff, b'a', 0xde, 0xad];
    assert_eq!(text_decode(&text_encode(&bytes)), Some(bytes));
    // Standard alphabet + padding, matching the executor's crypt.base64encode.
    assert_eq!(text_encode(b"abc"), "YWJj");
    assert_eq!(text_encode(b"ab"), "YWI=");
    assert_eq!(text_encode(&[]), "");
    assert_eq!(text_decode(""), Some(vec![]));
}

#[test]
fn base64_decode_rejects_malformed_input() {
    assert_eq!(text_decode("not valid base64!!"), None);
}

#[test]
fn renders_byte_blobs_as_uuid_or_hex() {
    // Player.User: 1-byte tag + 16-byte id -> dashed UUID (tag dropped).
    let mut user = vec![1u8];
    user.extend([0u8; 16]);
    assert_eq!(render_bytes(&user), "00000000-0000-0000-0000-000000000000");
    // A bare 16-byte id also formats as a UUID.
    assert_eq!(render_bytes(&[0xab; 16]), "abababab-abab-abab-abab-abababababab");
    // Anything else falls back to plain hex.
    assert_eq!(render_bytes(&[0x00, 0xff, 0x10]), "00ff10");
}

#[test]
fn a_tagged_id_drops_only_its_first_byte() {
    let mut tagged = vec![0xffu8];
    tagged.extend(0u8..16);
    assert_eq!(render_bytes(&tagged), "00010203-0405-0607-0809-0a0b0c0d0e0f");
    assert_eq!(render_bytes(&[]), "");
}

#[test]
fn only_canonical_padded_encodings_decode() {
    assert_eq!(text_decode("YQ=="), Some(b"a".to_vec()));
    assert_eq!(text_decode("YR=="), None, "trailing bits set");
    assert_eq!(text_decode("YQ"), None, "padding missing");
    assert_eq!(text_decode("YQ=a"), None, "data after padding");
    assert_eq!(text_decode("Y Q=="), None, "white space");
}
