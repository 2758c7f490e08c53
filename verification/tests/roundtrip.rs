use memedb_core::read_tags;
use memedb_core::write_tags;
use memedb_core::Error;

fn crc32(data: &[u8]) -> u32 {
    crc::Crc::<u32>::new(&crc::CRC_32_ISO_HDLC).checksum(data)
}

fn png_chunk(typ: &[u8; 4], data: &[u8]) -> Vec<u8> {
    let mut c = Vec::new();
    c.extend_from_slice(&(data.len() as u32).to_be_bytes());
    c.extend_from_slice(typ);
    c.extend_from_slice(data);
    let mut covered = typ.to_vec();
    covered.extend_from_slice(data);
    c.extend_from_slice(&crc32(&covered).to_be_bytes());
    c
}

fn minimal_png() -> Vec<u8> {
    let mut p = vec![0x89, 0x50, 0x4E, 0x47, 0x0D, 0x0A, 0x1A, 0x0A];
    let ihdr = [0, 0, 0, 1, 0, 0, 0, 1, 8, 0, 0, 0, 0];
    p.extend_from_slice(&png_chunk(b"IHDR", &ihdr));
    p.extend_from_slice(&png_chunk(b"IEND", &[]));
    p
}

fn tagged_png(payload: &[u8]) -> Vec<u8> {
    let mut p = vec![0x89, 0x50, 0x4E, 0x47, 0x0D, 0x0A, 0x1A, 0x0A];
    let ihdr = [0, 0, 0, 1, 0, 0, 0, 1, 8, 0, 0, 0, 0];
    p.extend_from_slice(&png_chunk(b"IHDR", &ihdr));
    p.extend_from_slice(&png_chunk(b"meMe", payload));
    p.extend_from_slice(&png_chunk(b"IEND", &[]));
    p
}

#[test]
fn png_read_untagged() {
    let src = minimal_png();
    assert_eq!(read_tags(&src).unwrap(), Some(Vec::new()));
}

#[test]
fn png_read_tagged() {
    // "bar" and "foo", each one terminal chunk, then the end-of-set byte
    let payload = [0x83, b'b', b'a', b'r', 0x83, b'f', b'o', b'o', 0x00];
    let src = tagged_png(&payload);
    assert_eq!(
        read_tags(&src).unwrap(),
        Some(vec!["bar".to_string(), "foo".to_string()])
    );
}

#[test]
fn png_write_inserts_sorted_chunk() {
    let src = minimal_png();
    let mut dest = Vec::new();
    let tags = vec!["foo".to_string(), "bar".to_string()];
    write_tags(&src, &mut dest, &tags).unwrap();
    let payload = [0x83, b'b', b'a', b'r', 0x83, b'f', b'o', b'o', 0x00];
    assert_eq!(dest, tagged_png(&payload));
}

#[test]
fn png_write_empty_set_replaces_old_chunk() {
    let payload = [0x83, b'b', b'a', b'r', 0x00];
    let src = tagged_png(&payload);
    let mut dest = Vec::new();
    write_tags(&src, &mut dest, &Vec::new()).unwrap();
    assert_eq!(dest, tagged_png(&[0x00]));
    assert_eq!(read_tags(&dest).unwrap(), Some(Vec::new()));
}

#[test]
fn png_round_trip() {
    let src = minimal_png();
    let tags = vec!["zebra".to_string(), "ant".to_string(), "zebra".to_string()];
    let mut dest = Vec::new();
    write_tags(&src, &mut dest, &tags).unwrap();
    assert_eq!(
        read_tags(&dest).unwrap(),
        Some(vec!["ant".to_string(), "zebra".to_string()])
    );
}

#[test]
fn png_write_twice_is_byte_equal() {
    let src = minimal_png();
    let tags = vec!["one".to_string(), "two".to_string()];
    let mut first = Vec::new();
    write_tags(&src, &mut first, &tags).unwrap();
    let mut second = Vec::new();
    write_tags(&first, &mut second, &tags).unwrap();
    assert_eq!(first, second);
}

#[test]
fn png_checksum_mismatch() {
    let payload = [0x83, b'b', b'a', b'r', 0x00];
    let mut src = tagged_png(&payload);
    // corrupt the last byte of the tag chunk's checksum
    let at = 8 + 25 + 8 + payload.len() + 3;
    src[at] = src[at].wrapping_add(1);
    assert!(matches!(
        read_tags(&src),
        Err(Error::PngChecksum(_, _))
    ));
}

#[test]
fn png_invalid_utf8_tag() {
    let payload = [0x81, 0xFF, 0x00];
    let src = tagged_png(&payload);
    assert!(matches!(read_tags(&src), Err(Error::Utf8)));
}

#[test]
fn png_truncated() {
    let mut src = minimal_png();
    src.truncate(12);
    assert!(matches!(read_tags(&src), Err(Error::Io)));
}

#[test]
fn unknown_format_reads_none() {
    let src = vec![1, 2, 3, 4, 5, 6, 7, 8];
    assert_eq!(read_tags(&src).unwrap(), None);
    let mut dest = Vec::new();
    assert_eq!(write_tags(&src, &mut dest, &Vec::new()).unwrap(), None);
    assert!(dest.is_empty());
}

fn minimal_gif() -> Vec<u8> {
    let mut g = b"GIF89a".to_vec();
    g.extend_from_slice(&[1, 0, 1, 0, 0, 0, 0]);
    g.push(0x3B);
    g
}

#[test]
fn gif_round_trip_keeps_foreign_extension() {
    let mut src = b"GIF89a".to_vec();
    src.extend_from_slice(&[1, 0, 1, 0, 0, 0, 0]);
    let mut foreign = vec![0x21, 0xFF, 0x0B];
    foreign.extend_from_slice(b"NETSCAPE2.0");
    foreign.extend_from_slice(&[0x03, 0x01, 0x00, 0x00, 0x00]);
    src.extend_from_slice(&foreign);
    src.push(0x3B);

    let mut dest = Vec::new();
    write_tags(&src, &mut dest, &vec!["x".to_string()]).unwrap();

    let mut expected = b"GIF89a".to_vec();
    expected.extend_from_slice(&[1, 0, 1, 0, 0, 0, 0]);
    expected.extend_from_slice(&[0x21, 0xFF, 0x0B]);
    expected.extend_from_slice(b"MEMETAGS1.0");
    expected.extend_from_slice(&[0x03, 0x81, b'x', 0x00, 0x00]);
    expected.extend_from_slice(&foreign);
    expected.push(0x3B);
    assert_eq!(dest, expected);
    assert_eq!(read_tags(&dest).unwrap(), Some(vec!["x".to_string()]));
}

#[test]
fn gif_write_twice_is_byte_equal() {
    let src = minimal_gif();
    let tags = vec!["pic".to_string()];
    let mut first = Vec::new();
    write_tags(&src, &mut first, &tags).unwrap();
    let mut second = Vec::new();
    write_tags(&first, &mut second, &tags).unwrap();
    assert_eq!(first, second);
}

#[test]
fn gif_unknown_block() {
    let mut src = b"GIF89a".to_vec();
    src.extend_from_slice(&[1, 0, 1, 0, 0, 0, 0]);
    src.push(0x99);
    assert!(matches!(read_tags(&src), Err(Error::InvalidSource)));
}

fn minimal_jpeg() -> (Vec<u8>, Vec<u8>, Vec<u8>) {
    let mut app0 = vec![0xFF, 0xE0, 0x00, 0x10];
    app0.extend_from_slice(b"JFIF\0");
    app0.extend_from_slice(&[0; 9]);
    let mut sof = vec![0xFF, 0xC0, 0x00, 0x0B];
    sof.extend_from_slice(&[0; 9]);
    let mut src = vec![0xFF, 0xD8];
    src.extend_from_slice(&app0);
    src.extend_from_slice(&sof);
    src.extend_from_slice(&[0xFF, 0xD9]);
    (src, app0, sof)
}

#[test]
fn jpeg_insert_after_app0() {
    let (src, app0, sof) = minimal_jpeg();
    let mut dest = Vec::new();
    write_tags(&src, &mut dest, &vec!["a".to_string()]).unwrap();
    let mut expected = vec![0xFF, 0xD8];
    expected.extend_from_slice(&app0);
    expected.extend_from_slice(&[0xFF, 0xE4, 0x00, 0x0C]);
    expected.extend_from_slice(b"MemeDB\0");
    expected.extend_from_slice(&[0x81, b'a', 0x00]);
    expected.extend_from_slice(&sof);
    expected.extend_from_slice(&[0xFF, 0xD9]);
    assert_eq!(dest, expected);
    assert_eq!(read_tags(&dest).unwrap(), Some(vec!["a".to_string()]));
}

#[test]
fn jpeg_segment_too_large() {
    let (src, _, _) = minimal_jpeg();
    let big = "y".repeat(70000);
    let mut dest = Vec::new();
    assert!(matches!(
        write_tags(&src, &mut dest, &vec![big]),
        Err(Error::ChunkSizeOverflow)
    ));
}

#[test]
fn isobmff_round_trip() {
    let mut src = Vec::new();
    src.extend_from_slice(&16u32.to_be_bytes());
    src.extend_from_slice(b"ftyp");
    src.extend_from_slice(b"isom");
    src.extend_from_slice(&[0; 4]);
    let mut dest = Vec::new();
    write_tags(&src, &mut dest, &vec!["t".to_string()]).unwrap();
    let mut expected = src.clone();
    expected.extend_from_slice(&27u32.to_be_bytes());
    expected.extend_from_slice(b"uuid");
    expected.extend_from_slice(&[
        0x12, 0xEB, 0xC6, 0x4D, 0xEA, 0x62, 0x47, 0xA0, 0x8E, 0x92, 0xB9, 0xFB, 0x3B, 0x51, 0x8C,
        0x28,
    ]);
    expected.extend_from_slice(&[0x81, b't', 0x00]);
    assert_eq!(dest, expected);
    assert_eq!(read_tags(&dest).unwrap(), Some(vec!["t".to_string()]));
}

#[test]
fn riff_round_trip() {
    let mut src = Vec::new();
    src.extend_from_slice(b"RIFF");
    src.extend_from_slice(&14u32.to_le_bytes());
    src.extend_from_slice(b"WEBP");
    src.extend_from_slice(b"VP8 ");
    src.extend_from_slice(&2u32.to_le_bytes());
    src.extend_from_slice(&[0, 0]);
    let mut dest = Vec::new();
    write_tags(&src, &mut dest, &vec!["q".to_string()]).unwrap();
    let mut expected = Vec::new();
    expected.extend_from_slice(b"RIFF");
    expected.extend_from_slice(&26u32.to_le_bytes());
    expected.extend_from_slice(b"WEBP");
    expected.extend_from_slice(b"VP8 ");
    expected.extend_from_slice(&2u32.to_le_bytes());
    expected.extend_from_slice(&[0, 0]);
    expected.extend_from_slice(b"meme");
    expected.extend_from_slice(&3u32.to_le_bytes());
    expected.extend_from_slice(&[0x81, b'q', 0x00, 0x00]);
    assert_eq!(dest, expected);
    assert_eq!(read_tags(&dest).unwrap(), Some(vec!["q".to_string()]));
}
