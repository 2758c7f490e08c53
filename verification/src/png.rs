//! # Portable Network Graphics
//!
//! PNG data is organized in chunks. Each chunk is structured as follows:
//!
//! - 4 byte big endian number describing the length of the data within.
//! - 4 byte ASCII identifier for the chunk type.
//! - The chunk data itself, which is as long as described in the length field.
//! - 4 byte CRC-32 checksum of the chunk type and data.
//!
//! A PNG file starts with a magic number to identify itself, followed by a
//! series of chunks, the first of which must be `IHDR`, and the last of which
//! must be `IEND`.
//!
//! The tags live in a `meMe` chunk.

use crate::error::Error;
use crate::utils::{
    be_bytes, be_val, decode_tags, encode_tags, eq4, lemma_be_val_bound, normalize_tags,
    passthrough, pow256, push_u32_be, read_heap, read_u32_be, skip, spec_decode_tags,
    spec_encode_tags, spec_normalize, spec_skip, strs_view,
};
use vstd::prelude::*;

verus! {

/// The type field of the tag chunk, `meMe`.
pub open spec fn meme_type() -> Seq<u8> {
    seq![0x6Du8, 0x65, 0x4D, 0x65]
}

/// The type field of the final chunk, `IEND`.
pub open spec fn iend_type() -> Seq<u8> {
    seq![0x49u8, 0x45, 0x4E, 0x44]
}

/// The CRC-32 checksum (ISO-HDLC polynomial) of a byte string, as PNG defines
/// it for the type and data of a chunk.
pub uninterp spec fn crc32_of(bytes: Seq<u8>) -> u32;

/// Relies on `crc::Crc::<u32>` with the `CRC_32_ISO_HDLC` algorithm: a
/// table-driven checksum whose value is a function of the input bytes alone.
#[verifier::external_body]
fn crc32(bytes: &Vec<u8>) -> (r: u32)
    ensures
        r == crc32_of(bytes@),
{
    crc::Crc::<u32>::new(&crc::CRC_32_ISO_HDLC).checksum(bytes.as_slice())
}

/// Outcome of walking the chunks from `pos` in search of the tag chunk: the
/// data and stored checksum of the first `meMe` chunk, or `NoTags` when `IEND`
/// comes first, or `Truncated` when the source ends inside a structure.
pub enum PngScan {
    Found(Seq<u8>, u32),
    NoTags,
    Truncated,
}

/// Walk the chunk sequence from `pos` for the tag chunk. Chunks that are
/// neither `meMe` nor `IEND` are stepped over by their declared length.
pub open spec fn png_scan(src: Seq<u8>, pos: int) -> PngScan
    decreases src.len() - pos when 0 <= pos <= src.len()
{
    if pos + 8 > src.len() {
        PngScan::Truncated
    } else {
        let l = be_val(src.subrange(pos, pos + 4)) as int;
        let t = src.subrange(pos + 4, pos + 8);
        if t == iend_type() {
            PngScan::NoTags
        } else if t == meme_type() {
            if pos + 8 + l + 4 > src.len() {
                PngScan::Truncated
            } else {
                PngScan::Found(
                    src.subrange(pos + 8, pos + 8 + l),
                    be_val(src.subrange(pos + 8 + l, pos + 8 + l + 4)) as u32,
                )
            }
        } else {
            png_scan(
                src,
                spec_skip(src.len() as int, spec_skip(src.len() as int, pos + 8, l), 4),
            )
        }
    }
}

/// Given a `src`, return the tags contained inside.
///
/// The scan starts after the 8-byte magic; the data of the first `meMe` chunk
/// is checked against its stored CRC-32 and then decoded. An `IEND` chunk
/// first means there are no tags.
pub fn read_tags(src: &Vec<u8>) -> (r: Result<Vec<String>, Error>)
    ensures
        match png_scan(src@, spec_skip(src@.len() as int, 0, 8)) {
            PngScan::Truncated => r == Err::<Vec<String>, Error>(Error::Io),
            PngScan::NoTags => r is Ok && r->Ok_0@ == Seq::<String>::empty(),
            PngScan::Found(data, stored) => {
                let computed = crc32_of(meme_type() + data);
                if stored != computed {
                    r == Err::<Vec<String>, Error>(Error::PngChecksum(stored, computed))
                } else {
                    match spec_decode_tags(data, Seq::<u8>::empty()) {
                        Ok(ts) => r is Ok && strs_view(r->Ok_0@) == ts,
                        Err(e) => r is Err && r->Err_0 == e,
                    }
                }
            },
        },
{
    let srclen = src.len();
    let mut pos: usize = 0;
    skip(src, &mut pos, 8);
    let ghost start = pos as int;
    loop
        invariant
            pos <= srclen,
            srclen == src@.len(),
            start == spec_skip(src@.len() as int, 0, 8),
            png_scan(src@, start) == png_scan(src@, pos as int),
        decreases src@.len() - pos,
    {
        let ghost p0 = pos as int;
        let l = match read_u32_be(src, &mut pos) {
            Ok(v) => v,
            Err(_) => {
                return Err(Error::Io);
            },
        };
        let t = match read_heap(src, &mut pos, 4) {
            Ok(v) => v,
            Err(_) => {
                return Err(Error::Io);
            },
        };
        proof {
            assert(l as int == be_val(src@.subrange(p0, p0 + 4)) as int);
        }
        if eq4(&t, 0x49, 0x45, 0x4E, 0x44) {
            return Ok(Vec::new());
        } else if eq4(&t, 0x6D, 0x65, 0x4D, 0x65) {
            let data = match read_heap(src, &mut pos, l as usize) {
                Ok(v) => v,
                Err(_) => {
                    return Err(Error::Io);
                },
            };
            let stored = match read_u32_be(src, &mut pos) {
                Ok(v) => v,
                Err(_) => {
                    return Err(Error::Io);
                },
            };
            proof {
                lemma_be_val_bound(src@.subrange(p0 + 8 + l, p0 + 8 + l + 4));
                assert(pow256(4) == 0x100000000) by {
                    assert(pow256(0) == 1);
                    assert(pow256(1) == 0x100);
                    assert(pow256(2) == 0x10000);
                    assert(pow256(3) == 0x1000000);
                }
            }
            let mut cb: Vec<u8> = Vec::new();
            cb.push(0x6D);
            cb.push(0x65);
            cb.push(0x4D);
            cb.push(0x65);
            let mut pd: usize = 0;
            passthrough(&data, &mut pd, &mut cb, data.len() as u64);
            proof {
                assert(data@.subrange(0, data@.len() as int) =~= data@);
                assert(cb@ =~= meme_type() + data@);
            }
            let computed = crc32(&cb);
            if stored != computed {
                return Err(Error::PngChecksum(stored, computed));
            }
            let mut dp: usize = 0;
            let r = decode_tags(&data, &mut dp);
            proof {
                assert(data@.skip(0) =~= data@);
            }
            return r;
        } else {
            skip(src, &mut pos, l as u64);
            skip(src, &mut pos, 4);
        }
    }
}

/// The freshly built tag chunk: length, type `meMe`, encoded payload, and the
/// CRC-32 over type and payload.
pub open spec fn png_tag_chunk(payload: Seq<u8>) -> Seq<u8> {
    be_bytes(payload.len(), 4) + meme_type() + payload + be_bytes(
        crc32_of(meme_type() + payload) as nat,
        4,
    )
}

/// The bytes the writer copies after the fresh tag chunk: every chunk from
/// `pos` on except `meMe` ones, up to and including `IEND`; `None` when the
/// source ends before an `IEND` chunk header.
pub open spec fn png_copy_rest(src: Seq<u8>, pos: int) -> Option<Seq<u8>>
    decreases src.len() - pos when 0 <= pos <= src.len()
{
    if pos + 8 > src.len() {
        None
    } else {
        let l = be_val(src.subrange(pos, pos + 4)) as int;
        let t = src.subrange(pos + 4, pos + 8);
        let end = spec_skip(src.len() as int, spec_skip(src.len() as int, pos + 8, l), 4);
        if t == meme_type() {
            png_copy_rest(src, end)
        } else if t == iend_type() {
            Some(src.subrange(pos, end))
        } else {
            match png_copy_rest(src, end) {
                Some(o) => Some(src.subrange(pos, end) + o),
                None => None,
            }
        }
    }
}

/// What writing puts in the sink: the magic and the first chunk copied, then
/// the fresh tag chunk for `payload`, then every further chunk except old
/// `meMe` ones, through `IEND`. Errors: `Io` when the source ends inside a
/// chunk structure, `ChunkSizeOverflow` when the payload cannot be counted in
/// the 4-byte length field.
pub open spec fn spec_png_write(src: Seq<u8>, payload: Seq<u8>) -> Result<Seq<u8>, Error> {
    let len = src.len() as int;
    let p8 = spec_skip(len, 0, 8);
    if p8 + 8 > len {
        Err(Error::Io)
    } else {
        let l0 = be_val(src.subrange(p8, p8 + 4)) as int;
        let end0 = spec_skip(len, spec_skip(len, p8 + 8, l0), 4);
        if payload.len() > 0xFFFFFFFF {
            Err(Error::ChunkSizeOverflow)
        } else {
            match png_copy_rest(src, end0) {
                None => Err(Error::Io),
                Some(rest) => Ok(src.subrange(0, end0) + png_tag_chunk(payload) + rest),
            }
        }
    }
}

/// Read data from `src`, set the provided `tags`, and write to `dest`.
///
/// This function will remove any tags that previously existed in `src`. On an
/// error the sink may already hold a partial copy, which the caller discards.
#[verifier::rlimit(50)]
pub fn write_tags(src: &Vec<u8>, dest: &mut Vec<u8>, tags: &Vec<String>) -> (r: Result<(), Error>)
    ensures
        ({
            let payload = spec_encode_tags(spec_normalize(strs_view(tags@)));
            match spec_png_write(src@, payload) {
                Ok(out) => r is Ok && final(dest)@ == old(dest)@ + out,
                Err(e) => r is Err && r->Err_0 == e,
            }
        }),
{
    let srclen = src.len();
    let mut pos: usize = 0;
    passthrough(src, &mut pos, dest, 8);
    let ghost p8 = pos as int;
    let hp0 = pos;
    let l0 = match read_u32_be(src, &mut pos) {
        Ok(v) => v,
        Err(_) => {
            return Err(Error::Io);
        },
    };
    let t0 = match read_heap(src, &mut pos, 4) {
        Ok(v) => v,
        Err(_) => {
            return Err(Error::Io);
        },
    };
    proof {
        assert(t0@.len() == 4);
    }
    let mut hp = hp0;
    passthrough(src, &mut hp, dest, 8);
    passthrough(src, &mut pos, dest, l0 as u64);
    passthrough(src, &mut pos, dest, 4);
    let ghost end0 = pos as int;
    proof {
        assert(dest@ =~= old(dest)@ + src@.subrange(0, end0));
    }

    let norm = normalize_tags(tags);
    let mut payload: Vec<u8> = Vec::new();
    encode_tags(&norm, &mut payload);
    if payload.len() as u64 > 0xFFFFFFFFu64 {
        return Err(Error::ChunkSizeOverflow);
    }

    let ghost pay = payload@;
    push_u32_be(dest, payload.len() as u32);
    dest.push(0x6D);
    dest.push(0x65);
    dest.push(0x4D);
    dest.push(0x65);
    let mut pp: usize = 0;
    passthrough(&payload, &mut pp, dest, payload.len() as u64);
    let mut cb: Vec<u8> = Vec::new();
    cb.push(0x6D);
    cb.push(0x65);
    cb.push(0x4D);
    cb.push(0x65);
    let mut pc: usize = 0;
    passthrough(&payload, &mut pc, &mut cb, payload.len() as u64);
    proof {
        assert(payload@.subrange(0, payload@.len() as int) =~= payload@);
        assert(cb@ =~= meme_type() + pay);
    }
    let c = crc32(&cb);
    push_u32_be(dest, c);
    let ghost head = dest@;
    proof {
        assert(head =~= old(dest)@ + src@.subrange(0, end0) + png_tag_chunk(pay));
    }

    loop
        invariant
            pos <= srclen,
            srclen == src@.len(),
            (match png_copy_rest(src@, pos as int) {
                Some(o) => Some::<Seq<u8>>(dest@ + o),
                None => None::<Seq<u8>>,
            }) == (match png_copy_rest(src@, end0) {
                Some(o) => Some::<Seq<u8>>(head + o),
                None => None::<Seq<u8>>,
            }),
            head == old(dest)@ + src@.subrange(0, end0) + png_tag_chunk(
                spec_encode_tags(spec_normalize(strs_view(tags@))),
            ),
            0 <= end0 <= src@.len(),
            spec_png_write(src@, spec_encode_tags(spec_normalize(strs_view(tags@)))) == (
            match png_copy_rest(src@, end0) {
                None => Err::<Seq<u8>, Error>(Error::Io),
                Some(rest) => Ok::<Seq<u8>, Error>(
                    src@.subrange(0, end0) + png_tag_chunk(
                        spec_encode_tags(spec_normalize(strs_view(tags@))),
                    ) + rest,
                ),
            }),
        decreases src@.len() - pos,
    {
        let ghost q0 = pos as int;
        let hq = pos;
        let l = match read_u32_be(src, &mut pos) {
            Ok(v) => v,
            Err(_) => {
                return Err(Error::Io);
            },
        };
        let t = match read_heap(src, &mut pos, 4) {
            Ok(v) => v,
            Err(_) => {
                return Err(Error::Io);
            },
        };
        proof {
            assert(l as int == be_val(src@.subrange(q0, q0 + 4)) as int);
            assert(t@ == src@.subrange(q0 + 4, q0 + 8));
        }
        if eq4(&t, 0x6D, 0x65, 0x4D, 0x65) {
            skip(src, &mut pos, l as u64);
            skip(src, &mut pos, 4);
            proof {
                assert(png_copy_rest(src@, q0) == png_copy_rest(src@, pos as int));
            }
        } else {
            let ghost pre = dest@;
            let mut hq2 = hq;
            passthrough(src, &mut hq2, dest, 8);
            passthrough(src, &mut pos, dest, l as u64);
            passthrough(src, &mut pos, dest, 4);
            proof {
                assert(dest@ =~= pre + src@.subrange(q0, pos as int));
            }
            if eq4(&t, 0x49, 0x45, 0x4E, 0x44) {
                proof {
                    assert(png_copy_rest(src@, q0) == Some(src@.subrange(q0, pos as int)));
                    let ro = png_copy_rest(src@, end0);
                    assert(ro is Some);
                    assert(dest@ == head + ro->0);
                    assert(head + ro->0 =~= old(dest)@ + (src@.subrange(0, end0) + png_tag_chunk(
                        spec_encode_tags(spec_normalize(strs_view(tags@))),
                    ) + ro->0));
                }
                return Ok(());
            }
            proof {
                let co = png_copy_rest(src@, pos as int);
                assert(png_copy_rest(src@, q0) == (match co {
                    Some(o) => Some(src@.subrange(q0, pos as int) + o),
                    None => None::<Seq<u8>>,
                }));
                if co is Some {
                    assert(pre + (src@.subrange(q0, pos as int) + co->0) =~= dest@ + co->0);
                }
            }
        }
    }
}

} // verus!
