use memedb_core::utils::decode_tags;
use memedb_core::utils::encode_tags;
use memedb_core::utils::normalize_tags;
use memedb_core::Error;

#[test]
fn encode_then_decode() {
    let tags = vec!["bar".to_string(), "foo".to_string()];
    let mut bytes = Vec::new();
    encode_tags(&tags, &mut bytes);
    assert_eq!(
        bytes,
        vec![0x83, b'b', b'a', b'r', 0x83, b'f', b'o', b'o', 0x00]
    );
    let mut pos = 0;
    assert_eq!(decode_tags(&bytes, &mut pos).unwrap(), tags);
}

#[test]
fn encode_long_tag_in_chunks() {
    let tag = "z".repeat(200);
    let mut bytes = Vec::new();
    encode_tags(&vec![tag.clone()], &mut bytes);
    // one full chunk of 127 bytes, then a terminal chunk of 73
    assert_eq!(bytes.len(), 1 + 127 + 1 + 73 + 1);
    assert_eq!(bytes[0], 0x7F);
    assert_eq!(bytes[128], 0x80 | 73);
    assert_eq!(bytes[bytes.len() - 1], 0x00);
    let mut pos = 0;
    assert_eq!(decode_tags(&bytes, &mut pos).unwrap(), vec![tag]);
}

#[test]
fn decode_empty_set() {
    let bytes = vec![0x00];
    let mut pos = 0;
    assert_eq!(decode_tags(&bytes, &mut pos).unwrap(), Vec::<String>::new());
}

#[test]
fn decode_short_payload() {
    let bytes = vec![0x05, b'a'];
    let mut pos = 0;
    assert!(matches!(decode_tags(&bytes, &mut pos), Err(Error::Io)));
}

#[test]
fn decode_bad_utf8() {
    let bytes = vec![0x81, 0xC0, 0x00];
    let mut pos = 0;
    assert!(matches!(decode_tags(&bytes, &mut pos), Err(Error::Utf8)));
}

#[test]
fn normalize_sorts_and_collapses() {
    let tags = vec![
        "foo".to_string(),
        "bar".to_string(),
        "foo".to_string(),
        "baz".to_string(),
    ];
    let n = normalize_tags(&tags);
    assert_eq!(
        n,
        vec!["bar".to_string(), "baz".to_string(), "foo".to_string()]
    );
}

#[test]
fn normalize_orders_by_byte_value() {
    let tags = vec!["b".to_string(), "A".to_string(), "a".to_string()];
    let n = normalize_tags(&tags);
    assert_eq!(n, vec!["A".to_string(), "a".to_string(), "b".to_string()]);
}

#[test]
fn or_eof_lifts_end_of_source() {
    assert_eq!(memedb_core::utils::or_eof(Ok(5u8)).unwrap(), Some(5));
    assert_eq!(
        memedb_core::utils::or_eof(Err::<u8, Error>(Error::Io)).unwrap(),
        None
    );
    assert!(matches!(
        memedb_core::utils::or_eof(Err::<u8, Error>(Error::Utf8)),
        Err(Error::Utf8)
    ));
}

#[test]
fn read_primitives_track_position() {
    let src = vec![1u8, 2, 3, 4, 5];
    let mut pos = 0usize;
    assert_eq!(memedb_core::utils::read_byte(&src, &mut pos).unwrap(), 1);
    assert_eq!(
        memedb_core::utils::read_heap(&src, &mut pos, 3).unwrap(),
        vec![2, 3, 4]
    );
    assert_eq!(pos, 4);
    assert!(matches!(
        memedb_core::utils::read_heap(&src, &mut pos, 2),
        Err(Error::Io)
    ));
    assert_eq!(pos, 4);
}
