//! Format dispatch: recognising which container a byte source holds by the
//! magic number near its start.

use vstd::prelude::*;

verus! {

/// One of the container formats the library recognises.
#[derive(Copy, Clone, Debug, Eq, PartialEq, Structural)]
pub enum Format {
    /// Graphics Interchange Format.
    Gif,
    /// ISO Base Media File Format.
    Isobmff,
    /// Joint Photographic Experts Group.
    Jpeg,
    /// Portable Network Graphics.
    Png,
    /// Resource Interchange File Format.
    Riff,
}

/// The magic bytes of a format.
pub open spec fn spec_magic(f: Format) -> Seq<u8> {
    match f {
        Format::Gif => seq![0x47u8, 0x49, 0x46, 0x38, 0x39, 0x61],
        Format::Isobmff => seq![0x66u8, 0x74, 0x79, 0x70],
        Format::Jpeg => seq![0xFFu8, 0xD8],
        Format::Png => seq![0x89u8, 0x50, 0x4E, 0x47, 0x0D, 0x0A, 0x1A, 0x0A],
        Format::Riff => seq![0x52u8, 0x49, 0x46, 0x46],
    }
}

/// The offset at which a format's magic bytes stand.
pub open spec fn spec_offset(f: Format) -> int {
    match f {
        Format::Isobmff => 4,
        _ => 0,
    }
}

/// `src` carries `f`'s magic number at `f`'s offset.
pub open spec fn magic_matches(src: Seq<u8>, f: Format) -> bool {
    let m = spec_magic(f);
    let o = spec_offset(f);
    src.len() >= o + m.len() && src.subrange(o, o + m.len()) == m
}

/// The format the dispatcher reports. It mirrors elimination over a streaming
/// source: the first byte either starts the magic of exactly one format at
/// offset zero (their magics all begin differently), which must then match in
/// full, or it starts none of them and only the ISO-BMFF magic at offset four
/// remains as a candidate.
pub open spec fn spec_identify(src: Seq<u8>) -> Option<Format> {
    if src.len() == 0 {
        None
    } else if src.first() == 0x47 {
        if magic_matches(src, Format::Gif) {
            Some(Format::Gif)
        } else {
            None
        }
    } else if src.first() == 0xFF {
        if magic_matches(src, Format::Jpeg) {
            Some(Format::Jpeg)
        } else {
            None
        }
    } else if src.first() == 0x89 {
        if magic_matches(src, Format::Png) {
            Some(Format::Png)
        } else {
            None
        }
    } else if src.first() == 0x52 {
        if magic_matches(src, Format::Riff) {
            Some(Format::Riff)
        } else {
            None
        }
    } else {
        if magic_matches(src, Format::Isobmff) {
            Some(Format::Isobmff)
        } else {
            None
        }
    }
}

/// A matching source carries the magic bytes themselves at the offset.
pub proof fn lemma_magic_bytes(src: Seq<u8>, f: Format)
    requires
        magic_matches(src, f),
    ensures
        forall|i: int|
            0 <= i < spec_magic(f).len() ==> src[spec_offset(f) + i] == spec_magic(f)[i],
{
    let m = spec_magic(f);
    let o = spec_offset(f);
    assert forall|i: int| 0 <= i < m.len() implies src[o + i] == m[i] by {
        assert(src.subrange(o, o + m.len())[i] == src[o + i]);
    }
}

/// Attempts to identify the format of a given `src`.
///
/// The function operates based on a list of known "magic numbers" that can be
/// found near the beginning of most file formats.
///
/// If no known format can be identified, `None` will be returned.
pub fn identify_format(src: &Vec<u8>) -> (r: Option<Format>)
    ensures
        r == spec_identify(src@),
{
    if src.len() == 0 {
        return None;
    }
    let b0 = src[0];
    if b0 == 0x47 {
        if src.len() >= 6 && src[1] == 0x49 && src[2] == 0x46 && src[3] == 0x38 && src[4] == 0x39
            && src[5] == 0x61 {
            proof {
                assert(src@.subrange(0, 6) =~= spec_magic(Format::Gif));
            }
            Some(Format::Gif)
        } else {
            proof {
                if magic_matches(src@, Format::Gif) {
                    lemma_magic_bytes(src@, Format::Gif);
                }
            }
            None
        }
    } else if b0 == 0xFF {
        if src.len() >= 2 && src[1] == 0xD8 {
            proof {
                assert(src@.subrange(0, 2) =~= spec_magic(Format::Jpeg));
            }
            Some(Format::Jpeg)
        } else {
            proof {
                if magic_matches(src@, Format::Jpeg) {
                    lemma_magic_bytes(src@, Format::Jpeg);
                }
            }
            None
        }
    } else if b0 == 0x89 {
        if src.len() >= 8 && src[1] == 0x50 && src[2] == 0x4E && src[3] == 0x47 && src[4] == 0x0D
            && src[5] == 0x0A && src[6] == 0x1A && src[7] == 0x0A {
            proof {
                assert(src@.subrange(0, 8) =~= spec_magic(Format::Png));
            }
            Some(Format::Png)
        } else {
            proof {
                if magic_matches(src@, Format::Png) {
                    lemma_magic_bytes(src@, Format::Png);
                }
            }
            None
        }
    } else if b0 == 0x52 {
        if src.len() >= 4 && src[1] == 0x49 && src[2] == 0x46 && src[3] == 0x46 {
            proof {
                assert(src@.subrange(0, 4) =~= spec_magic(Format::Riff));
            }
            Some(Format::Riff)
        } else {
            proof {
                if magic_matches(src@, Format::Riff) {
                    lemma_magic_bytes(src@, Format::Riff);
                }
            }
            None
        }
    } else {
        if src.len() >= 8 && src[4] == 0x66 && src[5] == 0x74 && src[6] == 0x79 && src[7] == 0x70 {
            proof {
                assert(src@.subrange(4, 8) =~= spec_magic(Format::Isobmff));
            }
            Some(Format::Isobmff)
        } else {
            proof {
                if magic_matches(src@, Format::Isobmff) {
                    lemma_magic_bytes(src@, Format::Isobmff);
                }
            }
            None
        }
    }
}

/// Dispatch law, sound direction: a reported format's magic really stands in
/// the source at the format's offset.
pub proof fn lemma_identify_sound(src: Seq<u8>, f: Format)
    requires
        spec_identify(src) == Some(f),
    ensures
        magic_matches(src, f),
{
}

/// Dispatch law, complete direction: a source that carries a format's magic is
/// reported as that format. For ISO-BMFF alone this needs the first byte to
/// start no other format's magic: a source that begins with another magic,
/// such as a JPEG start-of-image followed by `ftyp` at offset four, is
/// reported as that other format.
pub proof fn lemma_identify_complete(src: Seq<u8>, f: Format)
    requires
        magic_matches(src, f),
        f == Format::Isobmff ==> src.len() > 0 && src.first() != 0x47 && src.first() != 0xFF
            && src.first() != 0x89 && src.first() != 0x52,
    ensures
        spec_identify(src) == Some(f),
{
    lemma_magic_bytes(src, f);
    match f {
        Format::Gif => {
            assert(src.first() == 0x47);
        },
        Format::Jpeg => {
            assert(src.first() == 0xFF);
        },
        Format::Png => {
            assert(src.first() == 0x89);
        },
        Format::Riff => {
            assert(src.first() == 0x52);
        },
        Format::Isobmff => {
        },
    }
}

} // verus!
