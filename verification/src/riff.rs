//! # Resource Interchange File Format
//!
//! RIFF data is organized in chunks. Each chunk is structured as follows:
//!
//! - 4 byte ASCII name.
//! - 4 byte little endian length.
//! - The chunk data itself.
//! - An extra padding byte if the length is not even.
//!
//! A RIFF file is composed of a single `RIFF` meta-chunk, that contains a
//! 4-byte ASCII name describing the format of the payload (`WEBP`, `AVI `,
//! `WAV `, etc), and then a series of sub-chunks.
//!
//! The tags live in a `meme` sub-chunk, appended after every other sub-chunk
//! so that the original order is kept.

use crate::error::Error;
use crate::utils::{
    decode_tags, encode_tags, eq4, le_bytes, le_val, normalize_tags, passthrough, push_u32_le,
    read_heap, read_u32_le, skip, spec_decode_tags, spec_encode_tags, spec_normalize, spec_skip,
    strs_view,
};
use vstd::prelude::*;

verus! {

/// The FourCC of the tag sub-chunk, `meme`.
pub open spec fn meme_id() -> Seq<u8> {
    seq![0x6Du8, 0x65, 0x6D, 0x65]
}

/// Outcome of walking the sub-chunks from `pos` for the tag chunk: the
/// position right after a `meme` header, `NoTags` on a clean end of source,
/// or `Truncated` when the source ends inside a header.
pub enum RiffScan {
    FoundAt(int),
    NoTags,
    Truncated,
}

/// Walk the sub-chunk sequence from `pos` for the tag chunk. Other chunks are
/// stepped over by their declared length plus the padding byte of an odd one.
pub open spec fn riff_scan(src: Seq<u8>, pos: int) -> RiffScan
    decreases src.len() - pos when 0 <= pos <= src.len()
{
    if pos + 4 > src.len() {
        RiffScan::NoTags
    } else if pos + 8 > src.len() {
        RiffScan::Truncated
    } else {
        let id = src.subrange(pos, pos + 4);
        let sz = le_val(src.subrange(pos + 4, pos + 8)) as int;
        if id == meme_id() {
            RiffScan::FoundAt(pos + 8)
        } else {
            let pad: int = if sz % 2 == 1 {
                1
            } else {
                0
            };
            riff_scan(
                src,
                spec_skip(src.len() as int, spec_skip(src.len() as int, pos + 8, sz), pad),
            )
        }
    }
}

/// Given a `src`, return the tags contained inside.
///
/// The walk starts after the 12-byte RIFF header; the body of the first
/// `meme` sub-chunk is decoded. A clean end of source means there are no
/// tags.
pub fn read_tags(src: &Vec<u8>) -> (r: Result<Vec<String>, Error>)
    ensures
        src@.len() < 12 ==> r == Err::<Vec<String>, Error>(Error::Io),
        src@.len() >= 12 ==> match riff_scan(src@, 12) {
            RiffScan::Truncated => r == Err::<Vec<String>, Error>(Error::Io),
            RiffScan::NoTags => r is Ok && r->Ok_0@ == Seq::<String>::empty(),
            RiffScan::FoundAt(p) => match spec_decode_tags(src@.skip(p), Seq::<u8>::empty()) {
                Ok(ts) => r is Ok && strs_view(r->Ok_0@) == ts,
                Err(e) => r is Err && r->Err_0 == e,
            },
        },
{
    let srclen = src.len();
    if srclen < 12 {
        return Err(Error::Io);
    }
    let mut pos: usize = 12;
    loop
        invariant
            pos <= srclen,
            srclen == src@.len(),
            12 <= src@.len(),
            riff_scan(src@, 12) == riff_scan(src@, pos as int),
        decreases src@.len() - pos,
    {
        let ghost p0 = pos as int;
        if srclen - pos < 4 {
            return Ok(Vec::new());
        }
        let id = match read_heap(src, &mut pos, 4) {
            Ok(v) => v,
            Err(_) => {
                return Ok(Vec::new());
            },
        };
        let sz = match read_u32_le(src, &mut pos) {
            Ok(v) => v,
            Err(_) => {
                return Err(Error::Io);
            },
        };
        if eq4(&id, 0x6D, 0x65, 0x6D, 0x65) {
            let r = decode_tags(src, &mut pos);
            return r;
        }
        skip(src, &mut pos, sz as u64);
        if sz % 2 == 1 {
            skip(src, &mut pos, 1);
        }
    }
}

/// The fresh tag sub-chunk: FourCC `meme`, little-endian length, payload, and
/// a padding byte when the payload length is odd.
pub open spec fn riff_tag_chunk(payload: Seq<u8>) -> Seq<u8> {
    meme_id() + le_bytes(payload.len(), 4) + payload + (if payload.len() % 2 == 1 {
        seq![0u8]
    } else {
        Seq::<u8>::empty()
    })
}

/// The sub-chunk bytes the writer gathers from `pos` on: every chunk except
/// `meme` ones, each body copied whole with its padding byte — a missing
/// final padding byte is written as zero — and `None` when a header or a body
/// is cut short.
pub open spec fn riff_copy_chunks(src: Seq<u8>, pos: int) -> Option<Seq<u8>>
    decreases src.len() - pos when 0 <= pos <= src.len()
{
    let len = src.len() as int;
    if pos + 4 > len {
        Some(Seq::empty())
    } else if pos + 8 > len {
        None
    } else {
        let id = src.subrange(pos, pos + 4);
        let sz = le_val(src.subrange(pos + 4, pos + 8)) as int;
        let pad: int = if sz % 2 == 1 {
            1
        } else {
            0
        };
        let next = spec_skip(len, spec_skip(len, pos + 8, sz), pad);
        if id == meme_id() {
            riff_copy_chunks(src, next)
        } else if pos + 8 + sz > len {
            None
        } else {
            let chunk = src.subrange(pos, next) + (if pad == 1 && next == pos + 8 + sz {
                seq![0u8]
            } else {
                Seq::<u8>::empty()
            });
            match riff_copy_chunks(src, next) {
                Some(o) => Some(chunk + o),
                None => None,
            }
        }
    }
}

/// What writing puts in the sink: the first four source bytes, the recomputed
/// little-endian length, then the form identifier, every sub-chunk except old
/// `meme` ones, and the fresh tag chunk. Errors: `Io` when a chunk is cut
/// short, `ChunkSizeOverflow` when the assembled length does not fit its
/// 4-byte field.
pub open spec fn spec_riff_write(src: Seq<u8>, payload: Seq<u8>) -> Result<Seq<u8>, Error> {
    let len = src.len() as int;
    let a = spec_skip(len, 0, 4);
    let b = spec_skip(len, a, 4);
    let c = spec_skip(len, b, 4);
    match riff_copy_chunks(src, c) {
        None => Err(Error::Io),
        Some(ch) => {
            let data = src.subrange(b, c) + ch + riff_tag_chunk(payload);
            if data.len() > 0xFFFFFFFF {
                Err(Error::ChunkSizeOverflow)
            } else {
                Ok(src.subrange(0, a) + le_bytes(data.len(), 4) + data)
            }
        },
    }
}

/// Read data from `src`, set the provided `tags`, and write to `dest`.
///
/// This function will remove any tags that previously existed in `src`. On an
/// error the sink may already hold a partial copy, which the caller discards.
#[verifier::rlimit(50)]
pub fn write_tags(src: &Vec<u8>, dest: &mut Vec<u8>, tags: &Vec<String>) -> (r: Result<(), Error>)
    ensures
        ({
            let payload = spec_encode_tags(spec_normalize(strs_view(tags@)));
            match spec_riff_write(src@, payload) {
                Ok(out) => r is Ok && final(dest)@ == old(dest)@ + out,
                Err(e) => r is Err && r->Err_0 == e,
            }
        }),
{
    let srclen = src.len();
    let mut pos: usize = 0;
    passthrough(src, &mut pos, dest, 4);
    let ghost a = pos as int;
    skip(src, &mut pos, 4);
    let ghost b = pos as int;
    let mut data: Vec<u8> = Vec::new();
    passthrough(src, &mut pos, &mut data, 4);
    let ghost c = pos as int;
    loop
        invariant
            pos <= srclen,
            srclen == src@.len(),
            0 <= c <= src@.len(),
            a == spec_skip(src@.len() as int, 0, 4),
            b == spec_skip(src@.len() as int, a, 4),
            c == spec_skip(src@.len() as int, b, 4),
            dest@ == old(dest)@ + src@.subrange(0, a),
            (match riff_copy_chunks(src@, pos as int) {
                Some(o) => Some::<Seq<u8>>(data@ + o),
                None => None::<Seq<u8>>,
            }) == (match riff_copy_chunks(src@, c) {
                Some(o) => Some::<Seq<u8>>(src@.subrange(b, c) + o),
                None => None::<Seq<u8>>,
            }),
        ensures
            pos <= srclen,
            srclen == src@.len(),
            dest@ == old(dest)@ + src@.subrange(0, a),
            pos + 4 > src@.len(),
            (match riff_copy_chunks(src@, pos as int) {
                Some(o) => Some::<Seq<u8>>(data@ + o),
                None => None::<Seq<u8>>,
            }) == (match riff_copy_chunks(src@, c) {
                Some(o) => Some::<Seq<u8>>(src@.subrange(b, c) + o),
                None => None::<Seq<u8>>,
            }),
        decreases src@.len() - pos,
    {
        let ghost q0 = pos as int;
        let hq0 = pos;
        if srclen - pos < 4 {
            break ;
        }
        let id = match read_heap(src, &mut pos, 4) {
            Ok(v) => v,
            Err(_) => {
                break ;
            },
        };
        let sz = match read_u32_le(src, &mut pos) {
            Ok(v) => v,
            Err(_) => {
                proof {
                    assert(riff_copy_chunks(src@, q0) is None);
                }
                return Err(Error::Io);
            },
        };
        proof {
            assert(id@ == src@.subrange(q0, q0 + 4));
            assert(sz as int == le_val(src@.subrange(q0 + 4, q0 + 8)) as int);
        }
        if eq4(&id, 0x6D, 0x65, 0x6D, 0x65) {
            skip(src, &mut pos, sz as u64);
            if sz % 2 == 1 {
                skip(src, &mut pos, 1);
            }
            proof {
                assert(riff_copy_chunks(src@, q0) == riff_copy_chunks(src@, pos as int));
            }
        } else {
            let ghost pre = data@;
            let mut hq = hq0;
            passthrough(src, &mut hq, &mut data, 8);
            let copied = passthrough(src, &mut pos, &mut data, sz as u64);
            if copied < sz as u64 {
                proof {
                    assert(riff_copy_chunks(src@, q0) is None);
                }
                return Err(Error::Io);
            }
            let ghost bodyend = pos as int;
            if sz % 2 == 1 {
                let padded = passthrough(src, &mut pos, &mut data, 1);
                if padded == 0 {
                    data.push(0);
                } else {
                }
            }
            proof {
                let next = pos as int;
                let pad: int = if sz as int % 2 == 1 {
                    1
                } else {
                    0
                };
                let chunk = src@.subrange(q0, next) + (if pad == 1 && next == bodyend {
                    seq![0u8]
                } else {
                    Seq::<u8>::empty()
                });
                assert(data@ =~= pre + chunk);
                let co = riff_copy_chunks(src@, next);
                assert(riff_copy_chunks(src@, q0) == (match co {
                    Some(o) => Some::<Seq<u8>>(chunk + o),
                    None => None::<Seq<u8>>,
                }));
                if co is Some {
                    assert(pre + (chunk + co->0) =~= data@ + co->0);
                }
            }
        }
    }
    proof {
        assert(riff_copy_chunks(src@, pos as int) == Some(Seq::<u8>::empty()));
        assert(data@ + Seq::<u8>::empty() =~= data@);
    }

    let norm = normalize_tags(tags);
    let mut payload: Vec<u8> = Vec::new();
    encode_tags(&norm, &mut payload);
    let ghost pay = payload@;
    let ghost predata = data@;
    data.push(0x6D);
    data.push(0x65);
    data.push(0x6D);
    data.push(0x65);
    push_u32_le(&mut data, payload.len() as u32);
    let mut pp: usize = 0;
    passthrough(&payload, &mut pp, &mut data, payload.len() as u64);
    if payload.len() % 2 == 1 {
        data.push(0);
    }
    proof {
        assert(payload@.subrange(0, payload@.len() as int) =~= payload@);
    }
    if data.len() as u64 > 0xFFFFFFFFu64 {
        return Err(Error::ChunkSizeOverflow);
    }
    proof {
        if pay.len() > 0xFFFFFFFF {
            assert(data@.len() > 0xFFFFFFFF);
        }
        assert(le_bytes(pay.len(), 4) == le_bytes((pay.len() as u32) as nat, 4));
        assert(data@ =~= predata + riff_tag_chunk(pay));
    }
    push_u32_le(dest, data.len() as u32);
    let mut dp: usize = 0;
    passthrough(&data, &mut dp, dest, data.len() as u64);
    proof {
        assert(data@.subrange(0, data@.len() as int) =~= data@);
        assert(final(dest)@ =~= old(dest)@ + (src@.subrange(0, a) + le_bytes(data@.len(), 4)
            + data@));
    }
    Ok(())
}

} // verus!
