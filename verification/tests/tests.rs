use memedb_core::identify_format;
use memedb_core::Format;
use memedb_core::Tags;

fn magic_table() -> Vec<(Vec<u8>, usize, Format)> {
    vec![
        (vec![0x47, 0x49, 0x46, 0x38, 0x39, 0x61], 0, Format::Gif),
        (vec![0x66, 0x74, 0x79, 0x70], 4, Format::Isobmff),
        (vec![0xFF, 0xD8], 0, Format::Jpeg),
        (
            vec![0x89, 0x50, 0x4E, 0x47, 0x0D, 0x0A, 0x1A, 0x0A],
            0,
            Format::Png,
        ),
        (vec![0x52, 0x49, 0x46, 0x46], 0, Format::Riff),
    ]
}

#[test]
fn formats_correctly_identify_handlers() {
    for (magic, offset, format) in magic_table() {
        let mut bytes = vec![0; offset];
        bytes.extend_from_slice(&magic);
        assert_eq!(identify_format(&bytes), Some(format));
    }
}

#[test]
fn formats_unknown_format() {
    let bytes = vec![0x2E, 0x7C, 0x2E, 0x2E, 0x0A, 0x2E, 0x2E, 0x7C, 0x2E, 0x2C];
    assert_eq!(identify_format(&bytes), None);
}

#[test]
fn formats_short_file() {
    let bytes = vec![0x00];
    assert_eq!(identify_format(&bytes), None);
}

#[test]
fn mod_correctly_identify_handlers() {
    let signature = vec![0x89, 0x50, 0x4E, 0x47, 0x0D, 0x0A, 0x1A, 0x0A];
    assert_eq!(identify_format(&signature), Some(Format::Png));
}

#[test]
fn mod_unknown_format() {
    let bytes = vec![0x2E, 0x7C, 0x2E, 0x2E, 0x0A, 0x2E, 0x2E, 0x7C, 0x2E, 0x2C];
    assert_eq!(identify_format(&bytes), None);
}

#[test]
fn mod_short_file() {
    let bytes = vec![0x00];
    assert_eq!(identify_format(&bytes), None);
}

#[test]
fn empty_file() {
    let bytes = vec![];
    assert_eq!(identify_format(&bytes), None);
}

#[test]
fn test_tags() {
    let mut tags = Tags::new();

    tags.add_tag("foo".to_string());
    assert!(tags.has_tag(&"foo".to_string()));

    tags.remove_tag(&"foo".to_string());
    assert!(!tags.has_tag(&"foo".to_string()));

    tags.toggle_tag("foo".to_string());
    assert!(tags.has_tag(&"foo".to_string()));

    tags.toggle_tag("foo".to_string());
    assert!(!tags.has_tag(&"foo".to_string()));
}

#[test]
fn test_write_tags() {
    // Here be dragons
}

#[test]
fn size_zero_box() {
    let mut src: Vec<u8> = Vec::new();
    src.extend_from_slice(&0u32.to_be_bytes());
    src.extend_from_slice(&[0; 8]);
    assert_eq!(
        memedb_core::isobmff::read_tags(&src).unwrap(),
        Vec::<String>::new()
    );
    let mut dest = Vec::new();
    memedb_core::isobmff::write_tags(&src, &mut dest, &vec![String::new()]).unwrap();
    let mut expected: Vec<u8> = Vec::new();
    expected.extend_from_slice(&12u32.to_be_bytes());
    expected.extend_from_slice(&[0; 8]);
    expected.extend_from_slice(&26u32.to_be_bytes());
    expected.extend_from_slice(b"uuid");
    expected.extend_from_slice(&[
        0x12, 0xEB, 0xC6, 0x4D, 0xEA, 0x62, 0x47, 0xA0, 0x8E, 0x92, 0xB9, 0xFB, 0x3B, 0x51, 0x8C,
        0x28,
    ]);
    expected.extend_from_slice(&[0x80, 0x00]);
    assert_eq!(dest, expected);
}

#[test]
fn odd_size_chunk() {
    let mut src: Vec<u8> = Vec::new();
    src.extend_from_slice(b"RIFF");
    src.push(0x0E);
    src.extend_from_slice(&[0; 7]);
    src.extend_from_slice(&[0; 4]);
    src.push(0x01);
    src.extend_from_slice(&[0; 5]);
    assert_eq!(
        memedb_core::riff::read_tags(&src).unwrap(),
        Vec::<String>::new()
    );
    let mut dest = Vec::new();
    memedb_core::riff::write_tags(&src, &mut dest, &Vec::new()).unwrap();
    let mut expected: Vec<u8> = Vec::new();
    expected.extend_from_slice(b"RIFF");
    expected.push(0x18);
    expected.extend_from_slice(&[0; 7]);
    expected.extend_from_slice(&[0; 4]);
    expected.push(0x01);
    expected.extend_from_slice(&[0; 5]);
    expected.extend_from_slice(b"meme");
    expected.push(0x01);
    expected.extend_from_slice(&[0; 3]);
    expected.extend_from_slice(&[0x00, 0x00]);
    assert_eq!(dest, expected);
}
