//! # Graphics Interchange Format
//!
//! GIF files are organized as a sequence of descriptors, extensions, and
//! image data:
//!
//! - A Logical Screen Descriptor must be at the beginning of the file, it has
//!   a fixed size and may be followed by an optional color table.
//! - Extensions are identified by a `0x21` byte, followed by a label byte and
//!   a series of sub-blocks.
//! - Image Descriptors start with a `0x2C` byte, have a fixed size and are
//!   followed by an optional color table, one LZW code size byte and a series
//!   of sub-blocks.
//! - Sub-blocks indicate their size in a single byte, followed by their data.
//!   A sequence of sub-blocks ends when a sub-block of size 0 is found.
//! - The file ends when a trailer block is found, indicated by a single
//!   `0x3B` byte.
//!
//! The tags live in an Application Extension with the identifier
//! `MEMETAGS1.0`, placed right after the global color table.

use crate::error::Error;
use crate::utils::{
    decode_tags, encode_tags, normalize_tags, passthrough, read_byte, read_heap, skip,
    spec_decode_tags, spec_encode_tags, spec_normalize, spec_skip, strs_view,
};
use vstd::prelude::*;

verus! {

/// The identifier of the tag Application Extension, `MEMETAGS1.0`.
pub open spec fn gif_identifier() -> Seq<u8> {
    seq![0x4Du8, 0x45, 0x4D, 0x45, 0x54, 0x41, 0x47, 0x53, 0x31, 0x2E, 0x30]
}

/// The byte length of a color table whose descriptor packs its size in the
/// low three bits of `b`: `3 * 2^(n+1)`.
pub open spec fn color_table_size_spec(b: u8) -> u16 {
    (3 * (1u16 << (((b as u16) & 7) + 1))) as u16
}

/// Size in bytes of the color table that a descriptor byte announces.
pub fn color_table_size(byte: u8) -> (r: u16)
    ensures
        r == color_table_size_spec(byte),
{
    proof {
        assert((byte as u16) & 7 <= 7) by (bit_vector);
        assert(3 * (1u16 << (((byte as u16) & 7) + 1)) <= 3 * 256 && 1u16 << (((byte as u16) & 7)
            + 1) >= 1) by (bit_vector);
    }
    3 * (1u16 << ((byte & 7) as u16 + 1))
}

/// Where a sub-block run that starts at `pos` ends: one past its zero length
/// byte, or `None` when the source ends inside the run.
pub open spec fn gif_blocks_end(src: Seq<u8>, pos: int) -> Option<int>
    decreases src.len() - pos when 0 <= pos <= src.len()
{
    if pos >= src.len() {
        None
    } else {
        let n = src[pos] as int;
        if n == 0 {
            Some(pos + 1)
        } else if pos + 1 + n + 1 > src.len() {
            None
        } else {
            gif_blocks_end(src, pos + 1 + n)
        }
    }
}

/// A finished sub-block run ends after its first byte and within the source.
pub proof fn lemma_gif_blocks_end_bounds(src: Seq<u8>, pos: int)
    requires
        0 <= pos <= src.len(),
        gif_blocks_end(src, pos) is Some,
    ensures
        pos + 1 <= gif_blocks_end(src, pos)->0 <= src.len(),
    decreases src.len() - pos,
{
    if pos < src.len() && src[pos] != 0 && pos + 1 + src[pos] + 1 <= src.len() {
        lemma_gif_blocks_end_bounds(src, pos + 1 + src[pos]);
    }
}

/// The concatenated data bytes of the sub-block run at `pos`, or `None` when
/// the source ends inside the run.
pub open spec fn gif_subblock_data(src: Seq<u8>, pos: int) -> Option<Seq<u8>>
    decreases src.len() - pos when 0 <= pos <= src.len()
{
    if pos >= src.len() {
        None
    } else {
        let n = src[pos] as int;
        if n == 0 {
            Some(Seq::empty())
        } else if pos + 1 + n + 1 > src.len() {
            None
        } else {
            match gif_subblock_data(src, pos + 1 + n) {
                Some(d) => Some(src.subrange(pos + 1, pos + 1 + n) + d),
                None => None,
            }
        }
    }
}

/// Step over a sub-block run without keeping its bytes.
fn skip_blocks(src: &Vec<u8>, pos: &mut usize) -> (r: Result<(), Error>)
    requires
        *old(pos) <= src@.len(),
    ensures
        *final(pos) <= src@.len(),
        match gif_blocks_end(src@, *old(pos) as int) {
            Some(e) => r is Ok && *final(pos) == e,
            None => r == Err::<(), Error>(Error::Io),
        },
{
    let srclen = src.len();
    let ghost start = *pos as int;
    let mut n = match read_byte(src, pos) {
        Ok(v) => v,
        Err(_) => {
            return Err(Error::Io);
        },
    };
    while n != 0
        invariant
            1 <= *pos <= srclen,
            srclen == src@.len(),
            start == *old(pos) as int,
            n == src@[*pos - 1],
            gif_blocks_end(src@, start) == gif_blocks_end(src@, *pos - 1),
        decreases src@.len() - *pos,
    {
        let ghost lp = *pos - 1;
        let before = *pos;
        skip(src, pos, n as u64 + 1);
        if *pos - before < n as usize + 1 {
            proof {
                assert(gif_blocks_end(src@, lp) is None);
            }
            return Err(Error::Io);
        }
        n = src[*pos - 1];
    }
    Ok(())
}

/// Copy a sub-block run to the sink, byte for byte.
fn passthrough_blocks(src: &Vec<u8>, pos: &mut usize, dest: &mut Vec<u8>) -> (r: Result<(), Error>)
    requires
        *old(pos) <= src@.len(),
    ensures
        *final(pos) <= src@.len(),
        match gif_blocks_end(src@, *old(pos) as int) {
            Some(e) => r is Ok && *final(pos) == e && final(dest)@ == old(dest)@ + src@.subrange(
                *old(pos) as int,
                e,
            ),
            None => r == Err::<(), Error>(Error::Io),
        },
{
    let srclen = src.len();
    let ghost start = *pos as int;
    let mut n = match read_byte(src, pos) {
        Ok(v) => v,
        Err(_) => {
            return Err(Error::Io);
        },
    };
    dest.push(n);
    proof {
        assert(dest@ =~= old(dest)@ + src@.subrange(start, start + 1));
    }
    while n != 0
        invariant
            1 <= *pos <= srclen,
            srclen == src@.len(),
            start == *old(pos) as int,
            0 <= start < *pos,
            n == src@[*pos - 1],
            gif_blocks_end(src@, start) == gif_blocks_end(src@, *pos - 1),
            dest@ == old(dest)@ + src@.subrange(start, *pos as int),
        decreases src@.len() - *pos,
    {
        let ghost lp = *pos - 1;
        let ghost pit = *pos as int;
        let copied = passthrough(src, pos, dest, n as u64 + 1);
        if copied < n as u64 + 1 {
            proof {
                assert(gif_blocks_end(src@, lp) is None);
            }
            return Err(Error::Io);
        }
        proof {
            assert(src@.subrange(start, *pos as int) =~= src@.subrange(start, pit) + src@.subrange(
                pit,
                *pos as int,
            ));
            assert(dest@ =~= old(dest)@ + src@.subrange(start, *pos as int));
        }
        n = src[*pos - 1];
    }
    Ok(())
}

/// Outcome of walking the blocks from `pos` for the tag extension: the
/// concatenated payload of a `MEMETAGS1.0` Application Extension, `NoTags`
/// when the trailer comes first, `Truncated` when the source ends inside a
/// block, `Bad` on a block the grammar does not allow.
pub enum GifScan {
    Found(Seq<u8>),
    NoTags,
    Truncated,
    Bad,
}

/// Walk the block sequence from `pos` for the tag extension.
pub open spec fn gif_scan(src: Seq<u8>, pos: int) -> GifScan
    decreases src.len() - pos when 0 <= pos <= src.len()
{
    let len = src.len() as int;
    if pos >= len {
        GifScan::Truncated
    } else {
        let b = src[pos];
        if b == 0x3B {
            GifScan::NoTags
        } else if b == 0x21 {
            if pos + 2 > len {
                GifScan::Truncated
            } else {
                let label = src[pos + 1];
                if label == 0xFF {
                    if pos + 3 > len {
                        GifScan::Truncated
                    } else if src[pos + 2] != 11 {
                        GifScan::Bad
                    } else if pos + 14 > len {
                        GifScan::Truncated
                    } else if src.subrange(pos + 3, pos + 14) == gif_identifier() {
                        match gif_subblock_data(src, pos + 14) {
                            Some(d) => GifScan::Found(d),
                            None => GifScan::Truncated,
                        }
                    } else {
                        match gif_blocks_end(src, pos + 14) {
                            Some(e) => gif_scan(
                                src,
                                if pos < e <= src.len() {
                                    e
                                } else {
                                    pos + 1
                                },
                            ),
                            None => GifScan::Truncated,
                        }
                    }
                } else {
                    match gif_blocks_end(src, pos + 2) {
                        Some(e) => gif_scan(
                            src,
                            if pos < e <= src.len() {
                                e
                            } else {
                                pos + 1
                            },
                        ),
                        None => GifScan::Truncated,
                    }
                }
            }
        } else if b == 0x2C {
            if pos + 10 > len {
                GifScan::Truncated
            } else {
                let packed = src[pos + 9];
                let q = if packed >> 7 == 1 {
                    spec_skip(len, spec_skip(len, pos + 10, color_table_size_spec(packed) as int), 1)
                } else {
                    spec_skip(len, pos + 10, 1)
                };
                match gif_blocks_end(src, q) {
                    Some(e) => gif_scan(
                        src,
                        if pos < e <= src.len() {
                            e
                        } else {
                            pos + 1
                        },
                    ),
                    None => GifScan::Truncated,
                }
            }
        } else {
            GifScan::Bad
        }
    }
}

/// Where the blocks start: past the magic, the logical screen descriptor and
/// the optional global color table; `None` when the source ends before the
/// descriptor's packed byte.
pub open spec fn gif_header_end(src: Seq<u8>) -> Option<int> {
    let len = src.len() as int;
    let p10 = spec_skip(len, 0, 10);
    if p10 >= len {
        None
    } else {
        let packed = src[p10];
        let p13 = spec_skip(len, p10 + 1, 2);
        if packed >> 7 == 1 {
            Some(spec_skip(len, p13, color_table_size_spec(packed) as int))
        } else {
            Some(p13)
        }
    }
}

/// Compare an 11-byte buffer against the tag extension identifier.
fn is_gif_identifier(v: &Vec<u8>) -> (r: bool)
    requires
        v@.len() == 11,
    ensures
        r == (v@ == gif_identifier()),
{
    let e = v[0] == 0x4D && v[1] == 0x45 && v[2] == 0x4D && v[3] == 0x45 && v[4] == 0x54 && v[5]
        == 0x41 && v[6] == 0x47 && v[7] == 0x53 && v[8] == 0x31 && v[9] == 0x2E && v[10] == 0x30;
    proof {
        if e {
            assert(v@ =~= gif_identifier());
        }
        if v@ == gif_identifier() {
            assert(v@[0] == 0x4D && v@[1] == 0x45 && v@[2] == 0x4D && v@[3] == 0x45 && v@[4] == 0x54
                && v@[5] == 0x41 && v@[6] == 0x47 && v@[7] == 0x53 && v@[8] == 0x31 && v@[9] == 0x2E
                && v@[10] == 0x30);
        }
    }
    e
}

/// Given a `src`, return the tags contained inside.
///
/// The walk starts after the screen descriptor and global color table; the
/// concatenated sub-blocks of a `MEMETAGS1.0` Application Extension are
/// decoded. A trailer first means there are no tags.
#[verifier::rlimit(50)]
pub fn read_tags(src: &Vec<u8>) -> (r: Result<Vec<String>, Error>)
    ensures
        match gif_header_end(src@) {
            None => r == Err::<Vec<String>, Error>(Error::Io),
            Some(h) => match gif_scan(src@, h) {
                GifScan::NoTags => r is Ok && r->Ok_0@ == Seq::<String>::empty(),
                GifScan::Truncated => r == Err::<Vec<String>, Error>(Error::Io),
                GifScan::Bad => r == Err::<Vec<String>, Error>(Error::InvalidSource),
                GifScan::Found(d) => match spec_decode_tags(d, Seq::<u8>::empty()) {
                    Ok(ts) => r is Ok && strs_view(r->Ok_0@) == ts,
                    Err(e) => r is Err && r->Err_0 == e,
                },
            },
        },
{
    let srclen = src.len();
    let mut pos: usize = 0;
    skip(src, &mut pos, 10);
    let packed = match read_byte(src, &mut pos) {
        Ok(v) => v,
        Err(_) => {
            return Err(Error::Io);
        },
    };
    skip(src, &mut pos, 2);
    if packed >> 7 == 1 {
        let ct = color_table_size(packed);
        skip(src, &mut pos, ct as u64);
    }
    let ghost h = pos as int;
    loop
        invariant
            pos <= srclen,
            srclen == src@.len(),
            gif_header_end(src@) == Some(h),
            gif_scan(src@, h) == gif_scan(src@, pos as int),
        decreases src@.len() - pos,
    {
        let ghost q0 = pos as int;
        let b = match read_byte(src, &mut pos) {
            Ok(v) => v,
            Err(_) => {
                return Err(Error::Io);
            },
        };
        if b == 0x3B {
            return Ok(Vec::new());
        } else if b == 0x21 {
            let label = match read_byte(src, &mut pos) {
                Ok(v) => v,
                Err(_) => {
                    return Err(Error::Io);
                },
            };
            if label == 0xFF {
                let sz = match read_byte(src, &mut pos) {
                    Ok(v) => v,
                    Err(_) => {
                        return Err(Error::Io);
                    },
                };
                if sz != 11 {
                    return Err(Error::InvalidSource);
                }
                let ident = match read_heap(src, &mut pos, 11) {
                    Ok(v) => v,
                    Err(_) => {
                        return Err(Error::Io);
                    },
                };
                if is_gif_identifier(&ident) {
                    let ghost dstart = pos as int;
                    let mut tags_bytes: Vec<u8> = Vec::new();
                    let mut n = match read_byte(src, &mut pos) {
                        Ok(v) => v,
                        Err(_) => {
                            return Err(Error::Io);
                        },
                    };
                    proof {
                        let d0 = gif_subblock_data(src@, dstart);
                        if d0 is Some {
                            assert(Seq::<u8>::empty() + d0->0 =~= d0->0);
                        }
                    }
                    while n != 0
                        invariant
                            1 <= pos <= srclen,
                            srclen == src@.len(),
                            gif_header_end(src@) == Some(h),
                            gif_scan(src@, h) == (match gif_subblock_data(src@, dstart) {
                                Some(d) => GifScan::Found(d),
                                None => GifScan::Truncated,
                            }),
                            n == src@[pos - 1],
                            (match gif_subblock_data(src@, pos - 1) {
                                Some(d) => Some::<Seq<u8>>(tags_bytes@ + d),
                                None => None::<Seq<u8>>,
                            }) == gif_subblock_data(src@, dstart),
                        decreases src@.len() - pos,
                    {
                        let ghost pre = tags_bytes@;
                        let ghost lp = pos - 1;
                        let copied = passthrough(src, &mut pos, &mut tags_bytes, n as u64);
                        if copied < n as u64 {
                            proof {
                                assert(gif_subblock_data(src@, lp) is None);
                            }
                            return Err(Error::Io);
                        }
                        let n2 = match read_byte(src, &mut pos) {
                            Ok(v) => v,
                            Err(_) => {
                                proof {
                                    assert(gif_subblock_data(src@, lp) is None);
                                }
                                return Err(Error::Io);
                            },
                        };
                        proof {
                            let d0 = gif_subblock_data(src@, pos - 1);
                            assert(gif_subblock_data(src@, lp) == (match d0 {
                                Some(d) => Some::<Seq<u8>>(src@.subrange(lp + 1, lp + 1 + n) + d),
                                None => None::<Seq<u8>>,
                            }));
                            if d0 is Some {
                                assert(pre + (src@.subrange(lp + 1, lp + 1 + n) + d0->0)
                                    =~= tags_bytes@ + d0->0);
                            }
                        }
                        n = n2;
                    }
                    proof {
                        assert(gif_subblock_data(src@, pos - 1) == Some(Seq::<u8>::empty()));
                        assert(tags_bytes@ + Seq::<u8>::empty() =~= tags_bytes@);
                    }
                    let mut dp: usize = 0;
                    let r = decode_tags(&tags_bytes, &mut dp);
                    proof {
                        assert(tags_bytes@.skip(0) =~= tags_bytes@);
                    }
                    return r;
                } else {
                    match skip_blocks(src, &mut pos) {
                        Ok(_) => (),
                        Err(e) => {
                            return Err(e);
                        },
                    }
                    proof {
                        lemma_gif_blocks_end_bounds(src@, q0 + 14);
                    }
                }
            } else {
                match skip_blocks(src, &mut pos) {
                    Ok(_) => (),
                    Err(e) => {
                        return Err(e);
                    },
                }
                proof {
                    lemma_gif_blocks_end_bounds(src@, q0 + 2);
                }
            }
        } else if b == 0x2C {
            skip(src, &mut pos, 8);
            let packed2 = match read_byte(src, &mut pos) {
                Ok(v) => v,
                Err(_) => {
                    return Err(Error::Io);
                },
            };
            if packed2 >> 7 == 1 {
                let ct = color_table_size(packed2);
                skip(src, &mut pos, ct as u64);
            }
            skip(src, &mut pos, 1);
            match skip_blocks(src, &mut pos) {
                Ok(_) => (),
                Err(e) => {
                    return Err(e);
                },
            }
            proof {
                let len = src@.len() as int;
                let q = if src@[q0 + 9] >> 7 == 1 {
                    spec_skip(
                        len,
                        spec_skip(len, q0 + 10, color_table_size_spec(src@[q0 + 9]) as int),
                        1,
                    )
                } else {
                    spec_skip(len, q0 + 10, 1)
                };
                lemma_gif_blocks_end_bounds(src@, q);
            }
        } else {
            return Err(Error::InvalidSource);
        }
    }
}

/// The encoded payload re-framed as sub-blocks of at most 255 bytes, closed
/// by a zero length byte.
pub open spec fn gif_subblocks_frame(p: Seq<u8>) -> Seq<u8>
    decreases p.len(),
{
    if p.len() == 0 {
        seq![0u8]
    } else if p.len() > 255 {
        seq![255u8] + p.take(255) + gif_subblocks_frame(p.skip(255))
    } else {
        seq![p.len() as u8] + p + seq![0u8]
    }
}

/// The fresh tag extension: introducer, label, identifier and framed payload.
pub open spec fn gif_tag_extension(payload: Seq<u8>) -> Seq<u8> {
    seq![0x21u8, 0xFF, 0x0B] + gif_identifier() + gif_subblocks_frame(payload)
}

/// The bytes the writer copies after the fresh tag extension: every block
/// except old `MEMETAGS1.0` extensions, up to and including the trailer.
pub open spec fn gif_copy_blocks(src: Seq<u8>, pos: int) -> Result<Seq<u8>, Error>
    decreases src.len() - pos when 0 <= pos <= src.len()
{
    let len = src.len() as int;
    if pos >= len {
        Err(Error::Io)
    } else {
        let b = src[pos];
        if b == 0x3B {
            Ok(seq![0x3Bu8])
        } else if b == 0x21 {
            if pos + 2 > len {
                Err(Error::Io)
            } else {
                let label = src[pos + 1];
                if label == 0xFF {
                    if pos + 3 > len {
                        Err(Error::Io)
                    } else if src[pos + 2] != 11 {
                        Err(Error::InvalidSource)
                    } else if pos + 14 > len {
                        Err(Error::Io)
                    } else {
                        match gif_blocks_end(src, pos + 14) {
                            None => Err(Error::Io),
                            Some(e) => {
                                let e1 = if pos < e <= src.len() {
                                    e
                                } else {
                                    pos + 1
                                };
                                if src.subrange(pos + 3, pos + 14) == gif_identifier() {
                                    gif_copy_blocks(src, e1)
                                } else {
                                    match gif_copy_blocks(src, e1) {
                                        Ok(o) => Ok(src.subrange(pos, e1) + o),
                                        Err(er) => Err(er),
                                    }
                                }
                            },
                        }
                    }
                } else {
                    match gif_blocks_end(src, pos + 2) {
                        None => Err(Error::Io),
                        Some(e) => {
                            let e1 = if pos < e <= src.len() {
                                e
                            } else {
                                pos + 1
                            };
                            match gif_copy_blocks(src, e1) {
                                Ok(o) => Ok(src.subrange(pos, e1) + o),
                                Err(er) => Err(er),
                            }
                        },
                    }
                }
            }
        } else if b == 0x2C {
            if pos + 10 > len {
                Err(Error::Io)
            } else {
                let packed = src[pos + 9];
                let q = if packed >> 7 == 1 {
                    spec_skip(len, spec_skip(len, pos + 10, color_table_size_spec(packed) as int), 1)
                } else {
                    spec_skip(len, pos + 10, 1)
                };
                match gif_blocks_end(src, q) {
                    None => Err(Error::Io),
                    Some(e) => {
                        let e1 = if pos < e <= src.len() {
                            e
                        } else {
                            pos + 1
                        };
                        match gif_copy_blocks(src, e1) {
                            Ok(o) => Ok(src.subrange(pos, e1) + o),
                            Err(er) => Err(er),
                        }
                    },
                }
            }
        } else {
            Err(Error::InvalidSource)
        }
    }
}

/// What writing puts in the sink: the header and color table copied, the
/// fresh tag extension, then every block except old tag extensions through
/// the trailer.
pub open spec fn spec_gif_write(src: Seq<u8>, payload: Seq<u8>) -> Result<Seq<u8>, Error> {
    match gif_header_end(src) {
        None => Err(Error::Io),
        Some(h) => match gif_copy_blocks(src, h) {
            Ok(o) => Ok(src.subrange(0, h) + gif_tag_extension(payload) + o),
            Err(e) => Err(e),
        },
    }
}

/// Append the payload to the sink as sub-blocks of at most 255 bytes, closed
/// by a zero length byte.
fn write_subblocks(payload: &Vec<u8>, dest: &mut Vec<u8>)
    ensures
        final(dest)@ == old(dest)@ + gif_subblocks_frame(payload@),
{
    let plen = payload.len();
    let mut off: usize = 0;
    proof {
        assert(payload@.skip(0) =~= payload@);
    }
    while plen - off > 255
        invariant
            off <= plen,
            plen == payload@.len(),
            dest@ + gif_subblocks_frame(payload@.skip(off as int)) == old(dest)@
                + gif_subblocks_frame(payload@),
        decreases plen - off,
    {
        let ghost pre = dest@;
        dest.push(255u8);
        let mut p = off;
        passthrough(payload, &mut p, dest, 255);
        proof {
            assert(payload@.skip(off as int).take(255) =~= payload@.subrange(off as int, off
                + 255));
            assert(payload@.skip(off as int).skip(255) =~= payload@.skip(off + 255));
            assert(dest@ =~= pre + (seq![255u8] + payload@.skip(off as int).take(255)));
            assert(dest@ + gif_subblocks_frame(payload@.skip(off + 255)) =~= pre
                + gif_subblocks_frame(payload@.skip(off as int)));
        }
        off = p;
    }
    let rem = plen - off;
    let ghost pre = dest@;
    if rem > 0 {
        dest.push(rem as u8);
        let mut p = off;
        passthrough(payload, &mut p, dest, rem as u64);
        dest.push(0u8);
        proof {
            assert(payload@.skip(off as int) =~= payload@.subrange(off as int, off + rem));
            assert(dest@ =~= pre + gif_subblocks_frame(payload@.skip(off as int)));
        }
    } else {
        dest.push(0u8);
        proof {
            assert(payload@.skip(off as int).len() == 0);
            assert(dest@ =~= pre + gif_subblocks_frame(payload@.skip(off as int)));
        }
    }
    proof {
        assert(final(dest)@ == old(dest)@ + gif_subblocks_frame(payload@));
    }
}

/// Copy every block except old tag extensions to the sink, through the
/// trailer.
#[verifier::rlimit(100)]
fn copy_blocks(src: &Vec<u8>, pos: &mut usize, dest: &mut Vec<u8>) -> (r: Result<(), Error>)
    requires
        *old(pos) <= src@.len(),
    ensures
        match gif_copy_blocks(src@, *old(pos) as int) {
            Ok(o) => r is Ok && final(dest)@ == old(dest)@ + o,
            Err(e) => r is Err && r->Err_0 == e,
        },
{
    let srclen = src.len();
    let ghost start = *pos as int;
    loop
        invariant_except_break
            *pos <= srclen,
            srclen == src@.len(),
            start == *old(pos) as int,
            0 <= start <= src@.len(),
            (match gif_copy_blocks(src@, *pos as int) {
                Ok(o) => Ok::<Seq<u8>, Error>(dest@ + o),
                Err(e) => Err::<Seq<u8>, Error>(e),
            }) == (match gif_copy_blocks(src@, start) {
                Ok(o) => Ok::<Seq<u8>, Error>(old(dest)@ + o),
                Err(e) => Err::<Seq<u8>, Error>(e),
            }),
        ensures
            gif_copy_blocks(src@, start) is Ok,
            dest@ == old(dest)@ + gif_copy_blocks(src@, start)->Ok_0,
        decreases src@.len() - *pos,
    {
        let ghost q0 = *pos as int;
        let b = match read_byte(src, pos) {
            Ok(v) => v,
            Err(_) => {
                return Err(Error::Io);
            },
        };
        if b == 0x3B {
            dest.push(0x3B);
            proof {
                assert(gif_copy_blocks(src@, q0) == Ok::<Seq<u8>, Error>(seq![0x3Bu8]));
                assert(dest@ =~= old(dest)@ + gif_copy_blocks(src@, start)->Ok_0);
            }
            break ;
        } else if b == 0x21 {
            let label = match read_byte(src, pos) {
                Ok(v) => v,
                Err(_) => {
                    return Err(Error::Io);
                },
            };
            if label == 0xFF {
                let sz = match read_byte(src, pos) {
                    Ok(v) => v,
                    Err(_) => {
                        return Err(Error::Io);
                    },
                };
                if sz != 11 {
                    return Err(Error::InvalidSource);
                }
                let ident = match read_heap(src, pos, 11) {
                    Ok(v) => v,
                    Err(_) => {
                        return Err(Error::Io);
                    },
                };
                if is_gif_identifier(&ident) {
                    match skip_blocks(src, pos) {
                        Ok(_) => (),
                        Err(e) => {
                            return Err(e);
                        },
                    }
                    proof {
                        lemma_gif_blocks_end_bounds(src@, q0 + 14);
                        assert(gif_copy_blocks(src@, q0) == gif_copy_blocks(src@, *pos as int));
                    }
                } else {
                    let ghost pre = dest@;
                    dest.push(0x21);
                    dest.push(label);
                    dest.push(sz);
                    let mut ip: usize = 0;
                    passthrough(&ident, &mut ip, dest, 11);
                    match passthrough_blocks(src, pos, dest) {
                        Ok(_) => (),
                        Err(e) => {
                            return Err(e);
                        },
                    }
                    proof {
                        lemma_gif_blocks_end_bounds(src@, q0 + 14);
                        assert(ident@.subrange(0, 11) =~= ident@);
                        assert(dest@ =~= pre + src@.subrange(q0, *pos as int));
                        let co = gif_copy_blocks(src@, *pos as int);
                        assert(gif_copy_blocks(src@, q0) == (match co {
                            Ok(o) => Ok::<Seq<u8>, Error>(src@.subrange(q0, *pos as int) + o),
                            Err(e) => Err::<Seq<u8>, Error>(e),
                        }));
                        if co is Ok {
                            assert(pre + (src@.subrange(q0, *pos as int) + co->Ok_0) =~= dest@
                                + co->Ok_0);
                        }
                    }
                }
            } else {
                let ghost pre = dest@;
                dest.push(0x21);
                dest.push(label);
                match passthrough_blocks(src, pos, dest) {
                    Ok(_) => (),
                    Err(e) => {
                        return Err(e);
                    },
                }
                proof {
                    lemma_gif_blocks_end_bounds(src@, q0 + 2);
                    assert(dest@ =~= pre + src@.subrange(q0, *pos as int));
                    let co = gif_copy_blocks(src@, *pos as int);
                    assert(gif_copy_blocks(src@, q0) == (match co {
                        Ok(o) => Ok::<Seq<u8>, Error>(src@.subrange(q0, *pos as int) + o),
                        Err(e) => Err::<Seq<u8>, Error>(e),
                    }));
                    if co is Ok {
                        assert(pre + (src@.subrange(q0, *pos as int) + co->Ok_0) =~= dest@
                            + co->Ok_0);
                    }
                }
            }
        } else if b == 0x2C {
            let ghost pre = dest@;
            dest.push(0x2C);
            passthrough(src, pos, dest, 8);
            let packed2 = match read_byte(src, pos) {
                Ok(v) => v,
                Err(_) => {
                    return Err(Error::Io);
                },
            };
            dest.push(packed2);
            if packed2 >> 7 == 1 {
                let ct = color_table_size(packed2);
                passthrough(src, pos, dest, ct as u64);
            }
            passthrough(src, pos, dest, 1);
            match passthrough_blocks(src, pos, dest) {
                Ok(_) => (),
                Err(e) => {
                    return Err(e);
                },
            }
            proof {
                let len = src@.len() as int;
                let q = if src@[q0 + 9] >> 7 == 1 {
                    spec_skip(
                        len,
                        spec_skip(len, q0 + 10, color_table_size_spec(src@[q0 + 9]) as int),
                        1,
                    )
                } else {
                    spec_skip(len, q0 + 10, 1)
                };
                lemma_gif_blocks_end_bounds(src@, q);
                assert(dest@ =~= pre + src@.subrange(q0, *pos as int));
                let co = gif_copy_blocks(src@, *pos as int);
                assert(gif_copy_blocks(src@, q0) == (match co {
                    Ok(o) => Ok::<Seq<u8>, Error>(src@.subrange(q0, *pos as int) + o),
                    Err(e) => Err::<Seq<u8>, Error>(e),
                }));
                if co is Ok {
                    assert(pre + (src@.subrange(q0, *pos as int) + co->Ok_0) =~= dest@ + co->Ok_0);
                }
            }
        } else {
            return Err(Error::InvalidSource);
        }
    }
    Ok(())
}

/// Read data from `src`, set the provided `tags`, and write to `dest`.
///
/// This function will remove any tags that previously existed in `src`. On an
/// error the sink may already hold a partial copy, which the caller discards.
#[verifier::rlimit(100)]
pub fn write_tags(src: &Vec<u8>, dest: &mut Vec<u8>, tags: &Vec<String>) -> (r: Result<(), Error>)
    ensures
        ({
            let payload = spec_encode_tags(spec_normalize(strs_view(tags@)));
            match spec_gif_write(src@, payload) {
                Ok(out) => r is Ok && final(dest)@ == old(dest)@ + out,
                Err(e) => r is Err && r->Err_0 == e,
            }
        }),
{
    let srclen = src.len();
    let mut pos: usize = 0;
    passthrough(src, &mut pos, dest, 10);
    let packed = match read_byte(src, &mut pos) {
        Ok(v) => v,
        Err(_) => {
            return Err(Error::Io);
        },
    };
    dest.push(packed);
    passthrough(src, &mut pos, dest, 2);
    if packed >> 7 == 1 {
        let ct = color_table_size(packed);
        passthrough(src, &mut pos, dest, ct as u64);
    }
    let ghost h = pos as int;
    proof {
        assert(gif_header_end(src@) == Some(h));
        assert(dest@ =~= old(dest)@ + src@.subrange(0, h));
    }

    let norm = normalize_tags(tags);
    let mut payload: Vec<u8> = Vec::new();
    encode_tags(&norm, &mut payload);
    dest.push(0x21);
    dest.push(0xFF);
    dest.push(0x0B);
    dest.push(0x4D);
    dest.push(0x45);
    dest.push(0x4D);
    dest.push(0x45);
    dest.push(0x54);
    dest.push(0x41);
    dest.push(0x47);
    dest.push(0x53);
    dest.push(0x31);
    dest.push(0x2E);
    dest.push(0x30);
    write_subblocks(&payload, dest);
    let ghost head = dest@;
    proof {
        assert(head =~= old(dest)@ + src@.subrange(0, h) + gif_tag_extension(payload@));
    }

    match copy_blocks(src, &mut pos, dest) {
        Ok(_) => (),
        Err(e) => {
            return Err(e);
        },
    }
    proof {
        assert(dest@ =~= old(dest)@ + (src@.subrange(0, h) + gif_tag_extension(
            spec_encode_tags(spec_normalize(strs_view(tags@))),
        ) + gif_copy_blocks(src@, h)->Ok_0));
    }
    Ok(())
}

} // verus!
