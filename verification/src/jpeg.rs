//! # Joint Photographic Experts Group
//!
//! JPEG data is separated by markers. Markers start with a sequence of one or
//! more `0xFF` bytes, followed by a second byte that identifies the marker.
//!
//! 1. Some markers are followed by no further data.
//! 2. Some markers comprise marker segments, which are followed by a 2 byte
//!    big-endian length field — counting itself — followed by the segment
//!    data.
//! 3. Some markers are followed by entropy-coded data, which is walked byte
//!    by byte until a `0xFF` byte is found that *isn't* followed by `0x00`,
//!    which marks the beginning of another marker.
//!
//! The tags live in an APP4 (`0xE4`) segment whose data starts with the
//! identifier `MemeDB\0`.

use crate::error::Error;
use crate::utils::{
    be_bytes, be_val, decode_tags, encode_tags, normalize_tags, passthrough, push_u16_be,
    read_byte, read_heap, read_u16_be, skip, spec_decode_tags, spec_encode_tags, spec_normalize,
    spec_skip, strs_view,
};
use vstd::prelude::*;

verus! {

/// The identifier that opens the data of the tag segment, `MemeDB\0`.
pub open spec fn jpeg_tags_id() -> Seq<u8> {
    seq![0x4Du8, 0x65, 0x6D, 0x65, 0x44, 0x42, 0x00]
}

/// The body length a segment's length field declares: the field counts its
/// own two bytes, short fields saturate to zero.
pub open spec fn jpeg_body_len(l: nat) -> int {
    if l >= 2 {
        l - 2
    } else {
        0
    }
}

/// The first position at or after `pos` whose byte is not `0xFF`, or `None`
/// when the source ends first.
pub open spec fn jpeg_ff_run_end(src: Seq<u8>, pos: int) -> Option<int>
    decreases src.len() - pos when 0 <= pos <= src.len()
{
    if pos >= src.len() {
        None
    } else if src[pos] != 0xFF {
        Some(pos)
    } else {
        jpeg_ff_run_end(src, pos + 1)
    }
}

pub proof fn lemma_ff_run_bounds(src: Seq<u8>, pos: int)
    requires
        0 <= pos <= src.len(),
        jpeg_ff_run_end(src, pos) is Some,
    ensures
        pos <= jpeg_ff_run_end(src, pos)->0 < src.len(),
    decreases src.len() - pos,
{
    if pos < src.len() && src[pos] == 0xFF {
        lemma_ff_run_bounds(src, pos + 1);
    }
}

/// What walking an entropy-coded segment from `pos` yields: the bytes passed
/// through (stuffed `FF 00` pairs included), the marker that ends it, and the
/// position after that marker; `Io` when the source ends first.
pub open spec fn jpeg_ecs(src: Seq<u8>, pos: int) -> Result<(Seq<u8>, u8, int), Error>
    decreases src.len() - pos when 0 <= pos <= src.len()
{
    if pos >= src.len() {
        Err(Error::Io)
    } else {
        let b = src[pos];
        if b != 0xFF {
            match jpeg_ecs(src, pos + 1) {
                Ok((e, m, q)) => Ok((seq![b] + e, m, q)),
                Err(er) => Err(er),
            }
        } else if pos + 2 > src.len() {
            Err(Error::Io)
        } else if src[pos + 1] == 0 {
            match jpeg_ecs(src, pos + 2) {
                Ok((e, m, q)) => Ok((seq![0xFFu8, 0x00] + e, m, q)),
                Err(er) => Err(er),
            }
        } else {
            match jpeg_ff_run_end(src, pos + 1) {
                None => Err(Error::Io),
                Some(p) => Ok((Seq::empty(), src[p], p + 1)),
            }
        }
    }
}

/// The only error the entropy-coded walk reports is a short source.
pub proof fn lemma_ecs_err_io(src: Seq<u8>, pos: int)
    requires
        0 <= pos <= src.len(),
        jpeg_ecs(src, pos) is Err,
    ensures
        jpeg_ecs(src, pos)->Err_0 == Error::Io,
    decreases src.len() - pos,
{
    if pos < src.len() {
        let b = src[pos];
        if b != 0xFF {
            if jpeg_ecs(src, pos + 1) is Err {
                lemma_ecs_err_io(src, pos + 1);
            }
        } else if pos + 2 <= src.len() && src[pos + 1] == 0 {
            if jpeg_ecs(src, pos + 2) is Err {
                lemma_ecs_err_io(src, pos + 2);
            }
        }
    }
}

pub proof fn lemma_ecs_bounds(src: Seq<u8>, pos: int)
    requires
        0 <= pos <= src.len(),
        jpeg_ecs(src, pos) is Ok,
    ensures
        pos < jpeg_ecs(src, pos)->Ok_0.2 <= src.len(),
    decreases src.len() - pos,
{
    if pos < src.len() {
        let b = src[pos];
        if b != 0xFF {
            lemma_ecs_bounds(src, pos + 1);
        } else if pos + 2 <= src.len() && src[pos + 1] == 0 {
            lemma_ecs_bounds(src, pos + 2);
        } else if pos + 2 <= src.len() {
            lemma_ff_run_bounds(src, pos + 1);
        }
    }
}

/// Read one marker: a `0xFF` byte, any further `0xFF` padding, then the
/// marker byte itself. A first byte that is not `0xFF` violates the grammar.
fn read_marker(src: &Vec<u8>, pos: &mut usize) -> (r: Result<u8, Error>)
    requires
        *old(pos) <= src@.len(),
    ensures
        *final(pos) <= src@.len(),
        *old(pos) >= src@.len() ==> r == Err::<u8, Error>(Error::Io),
        *old(pos) < src@.len() && src@[*old(pos) as int] != 0xFF ==> r == Err::<u8, Error>(
            Error::InvalidSource,
        ),
        *old(pos) < src@.len() && src@[*old(pos) as int] == 0xFF ==> match jpeg_ff_run_end(
            src@,
            *old(pos) + 1,
        ) {
            None => r == Err::<u8, Error>(Error::Io),
            Some(p) => r is Ok && r->Ok_0 == src@[p] && *final(pos) == p + 1,
        },
{
    let b = match read_byte(src, pos) {
        Ok(v) => v,
        Err(_) => {
            return Err(Error::Io);
        },
    };
    if b != 0xFF {
        return Err(Error::InvalidSource);
    }
    let ghost rs = *pos as int;
    let mut m = match read_byte(src, pos) {
        Ok(v) => v,
        Err(_) => {
            return Err(Error::Io);
        },
    };
    while m == 0xFF
        invariant
            1 <= *pos <= src@.len(),
            rs == *old(pos) + 1,
            *old(pos) < src@.len(),
            src@[*old(pos) as int] == 0xFF,
            rs <= *pos,
            m == src@[*pos - 1],
            jpeg_ff_run_end(src@, rs) == jpeg_ff_run_end(src@, *pos - 1),
        decreases src@.len() - *pos,
    {
        m = match read_byte(src, pos) {
            Ok(v) => v,
            Err(_) => {
                proof {
                    assert(jpeg_ff_run_end(src@, *pos as int) is None);
                    assert(jpeg_ff_run_end(src@, *pos - 1) is None);
                }
                return Err(Error::Io);
            },
        };
    }
    Ok(m)
}

/// Walk an entropy-coded segment, copying its bytes to the sink, and return
/// the marker that ends it.
fn passthrough_ecs(src: &Vec<u8>, pos: &mut usize, dest: &mut Vec<u8>) -> (r: Result<u8, Error>)
    requires
        *old(pos) <= src@.len(),
    ensures
        *final(pos) <= src@.len(),
        match jpeg_ecs(src@, *old(pos) as int) {
            Ok((e, m, q)) => r is Ok && r->Ok_0 == m && *final(pos) == q && final(dest)@ == old(
                dest,
            )@ + e,
            Err(er) => r is Err && r->Err_0 == er,
        },
{
    let ghost start = *pos as int;
    let mut marker: u8 = 0;
    loop
        invariant_except_break
            *pos <= src@.len(),
            start == *old(pos) as int,
            (match jpeg_ecs(src@, *pos as int) {
                Ok((e, m, q)) => Ok::<(Seq<u8>, u8, int), Error>((dest@ + e, m, q)),
                Err(er) => Err::<(Seq<u8>, u8, int), Error>(er),
            }) == (match jpeg_ecs(src@, start) {
                Ok((e, m, q)) => Ok::<(Seq<u8>, u8, int), Error>((old(dest)@ + e, m, q)),
                Err(er) => Err::<(Seq<u8>, u8, int), Error>(er),
            }),
        ensures
            *pos <= src@.len(),
            jpeg_ecs(src@, start) is Ok,
            ({
                let (e, m, q) = jpeg_ecs(src@, start)->Ok_0;
                dest@ == old(dest)@ + e && *pos == q && marker == m
            }),
        decreases src@.len() - *pos,
    {
        let ghost p0 = *pos as int;
        let b = match read_byte(src, pos) {
            Ok(v) => v,
            Err(_) => {
                return Err(Error::Io);
            },
        };
        if b != 0xFF {
            let ghost pre = dest@;
            dest.push(b);
            proof {
                let co = jpeg_ecs(src@, *pos as int);
                if co is Ok {
                    let (e, m, q) = co->Ok_0;
                    assert(pre + (seq![b] + e) =~= dest@ + e);
                }
            }
        } else {
            let nb = match read_byte(src, pos) {
                Ok(v) => v,
                Err(_) => {
                    return Err(Error::Io);
                },
            };
            if nb == 0 {
                let ghost pre = dest@;
                dest.push(0xFF);
                dest.push(0x00);
                proof {
                    let co = jpeg_ecs(src@, *pos as int);
                    if co is Ok {
                        let (e, m, q) = co->Ok_0;
                        assert(pre + (seq![0xFFu8, 0x00] + e) =~= dest@ + e);
                    }
                }
            } else {
                let ghost rs = p0 + 1;
                let mut m = nb;
                while m == 0xFF
                    invariant
                        1 <= *pos <= src@.len(),
                        0 <= p0,
                        rs == p0 + 1,
                        src@[p0] == 0xFF,
                        p0 + 2 <= src@.len(),
                        src@[p0 + 1] != 0,
                        start == *old(pos) as int,
                        rs <= *pos,
                        m == src@[*pos - 1],
                        jpeg_ff_run_end(src@, rs) == jpeg_ff_run_end(src@, *pos - 1),
                        (match jpeg_ecs(src@, p0) {
                            Ok((e, m2, q)) => Ok::<(Seq<u8>, u8, int), Error>((dest@ + e, m2, q)),
                            Err(er) => Err::<(Seq<u8>, u8, int), Error>(er),
                        }) == (match jpeg_ecs(src@, start) {
                            Ok((e, m2, q)) => Ok::<(Seq<u8>, u8, int), Error>((old(dest)@ + e, m2, q)),
                            Err(er) => Err::<(Seq<u8>, u8, int), Error>(er),
                        }),
                    decreases src@.len() - *pos,
                {
                    m = match read_byte(src, pos) {
                        Ok(v) => v,
                        Err(_) => {
                            proof {
                                assert(jpeg_ff_run_end(src@, *pos as int) is None);
                                assert(jpeg_ff_run_end(src@, *pos - 1) is None);
                            }
                            return Err(Error::Io);
                        },
                    };
                }
                proof {
                    assert(jpeg_ff_run_end(src@, rs) == Some(*pos - 1));
                    assert(dest@ + Seq::<u8>::empty() =~= dest@);
                }
                marker = m;
                break ;
            }
        }
    }
    Ok(marker)
}

/// Walk an entropy-coded segment without keeping its bytes, and return the
/// marker that ends it.
fn skip_ecs(src: &Vec<u8>, pos: &mut usize) -> (r: Result<u8, Error>)
    requires
        *old(pos) <= src@.len(),
    ensures
        *final(pos) <= src@.len(),
        match jpeg_ecs(src@, *old(pos) as int) {
            Ok((e, m, q)) => r is Ok && r->Ok_0 == m && *final(pos) == q,
            Err(er) => r is Err && r->Err_0 == er,
        },
{
    let ghost start = *pos as int;
    let mut marker: u8 = 0;
    loop
        invariant_except_break
            *pos <= src@.len(),
            start == *old(pos) as int,
            (match jpeg_ecs(src@, *pos as int) {
                Ok((e, m, q)) => Ok::<(u8, int), Error>((m, q)),
                Err(er) => Err::<(u8, int), Error>(er),
            }) == (match jpeg_ecs(src@, start) {
                Ok((e, m, q)) => Ok::<(u8, int), Error>((m, q)),
                Err(er) => Err::<(u8, int), Error>(er),
            }),
        ensures
            *pos <= src@.len(),
            jpeg_ecs(src@, start) is Ok,
            ({
                let (e, m, q) = jpeg_ecs(src@, start)->Ok_0;
                *pos == q && marker == m
            }),
        decreases src@.len() - *pos,
    {
        let ghost p0 = *pos as int;
        let b = match read_byte(src, pos) {
            Ok(v) => v,
            Err(_) => {
                return Err(Error::Io);
            },
        };
        if b != 0xFF {
        } else {
            let nb = match read_byte(src, pos) {
                Ok(v) => v,
                Err(_) => {
                    return Err(Error::Io);
                },
            };
            if nb == 0 {
            } else {
                let ghost rs = p0 + 1;
                let mut m = nb;
                while m == 0xFF
                    invariant
                        1 <= *pos <= src@.len(),
                        0 <= p0,
                        rs == p0 + 1,
                        src@[p0] == 0xFF,
                        p0 + 2 <= src@.len(),
                        src@[p0 + 1] != 0,
                        start == *old(pos) as int,
                        rs <= *pos,
                        m == src@[*pos - 1],
                        jpeg_ff_run_end(src@, rs) == jpeg_ff_run_end(src@, *pos - 1),
                        (match jpeg_ecs(src@, p0) {
                            Ok((e, m2, q)) => Ok::<(u8, int), Error>((m2, q)),
                            Err(er) => Err::<(u8, int), Error>(er),
                        }) == (match jpeg_ecs(src@, start) {
                            Ok((e, m2, q)) => Ok::<(u8, int), Error>((m2, q)),
                            Err(er) => Err::<(u8, int), Error>(er),
                        }),
                    decreases src@.len() - *pos,
                {
                    m = match read_byte(src, pos) {
                        Ok(v) => v,
                        Err(_) => {
                            proof {
                                assert(jpeg_ff_run_end(src@, *pos as int) is None);
                                assert(jpeg_ff_run_end(src@, *pos - 1) is None);
                            }
                            return Err(Error::Io);
                        },
                    };
                }
                proof {
                    assert(jpeg_ff_run_end(src@, rs) == Some(*pos - 1));
                }
                marker = m;
                break ;
            }
        }
    }
    Ok(marker)
}

/// The marker carries entropy-coded data after its body.
pub open spec fn jpeg_is_ecs(m: u8) -> bool {
    (0xD0 <= m && m <= 0xD7) || m == 0xDA
}

/// The marker stands alone, with no body.
pub open spec fn jpeg_is_standalone(m: u8) -> bool {
    m == 0x01 || (0xD0 <= m && m <= 0xD8)
}

/// Outcome of walking the markers for the tag segment: the position of the
/// payload inside a `MemeDB` APP4 segment, `NoTags` when the end-of-image
/// marker comes first, `Truncated` when the source ends inside a structure,
/// `Bad` on a marker the grammar does not allow.
pub enum JpegScan {
    FoundAt(int),
    NoTags,
    Truncated,
    Bad,
}

/// Walk the markers for the tag segment, starting on marker `m` whose body
/// begins at `pos`.
pub open spec fn jpeg_scan(src: Seq<u8>, m: u8, pos: int) -> JpegScan
    decreases src.len() - pos when 0 <= pos <= src.len()
{
    let len = src.len() as int;
    if m == 0xD9 {
        JpegScan::NoTags
    } else if m == 0x00 || m == 0xFF {
        JpegScan::Bad
    } else {
        let step: Result<int, JpegScan> = if m == 0xE4 {
            if pos + 2 > len {
                Err(JpegScan::Truncated)
            } else {
                let body = jpeg_body_len(be_val(src.subrange(pos, pos + 2)));
                if body < 7 {
                    Ok(spec_skip(len, pos + 2, body))
                } else if pos + 9 > len {
                    Err(JpegScan::Truncated)
                } else if src.subrange(pos + 2, pos + 9) == jpeg_tags_id() {
                    Err(JpegScan::FoundAt(pos + 9))
                } else {
                    Ok(spec_skip(len, pos + 9, body - 7))
                }
            }
        } else if jpeg_is_standalone(m) {
            Ok(pos)
        } else {
            if pos + 2 > len {
                Err(JpegScan::Truncated)
            } else {
                let body = jpeg_body_len(be_val(src.subrange(pos, pos + 2)));
                Ok(spec_skip(len, pos + 2, body))
            }
        };
        match step {
            Err(out) => out,
            Ok(q) => {
                if jpeg_is_ecs(m) {
                    match jpeg_ecs(src, q) {
                        Err(_) => JpegScan::Truncated,
                        Ok((e, m2, q2)) => jpeg_scan(
                            src,
                            m2,
                            if pos < q2 <= src.len() {
                                q2
                            } else {
                                pos + 1
                            },
                        ),
                    }
                } else {
                    if q >= len {
                        JpegScan::Truncated
                    } else if src[q] != 0xFF {
                        JpegScan::Bad
                    } else {
                        match jpeg_ff_run_end(src, q + 1) {
                            None => JpegScan::Truncated,
                            Some(p) => jpeg_scan(
                                src,
                                src[p],
                                if pos < p + 1 <= src.len() {
                                    p + 1
                                } else {
                                    pos + 1
                                },
                            ),
                        }
                    }
                }
            },
        }
    }
}

/// The whole read walk: the opening marker is read first.
pub open spec fn spec_jpeg_read(src: Seq<u8>) -> JpegScan {
    if src.len() == 0 {
        JpegScan::Truncated
    } else if src[0] != 0xFF {
        JpegScan::Bad
    } else {
        match jpeg_ff_run_end(src, 1) {
            None => JpegScan::Truncated,
            Some(p) => jpeg_scan(src, src[p], p + 1),
        }
    }
}

/// Compare a 7-byte buffer against the tag segment identifier.
fn is_jpeg_id(v: &Vec<u8>) -> (r: bool)
    requires
        v@.len() == 7,
    ensures
        r == (v@ == jpeg_tags_id()),
{
    let e = v[0] == 0x4D && v[1] == 0x65 && v[2] == 0x6D && v[3] == 0x65 && v[4] == 0x44 && v[5]
        == 0x42 && v[6] == 0x00;
    proof {
        if e {
            assert(v@ =~= jpeg_tags_id());
        }
        if v@ == jpeg_tags_id() {
            assert(v@[0] == 0x4D && v@[1] == 0x65 && v@[2] == 0x6D && v@[3] == 0x65 && v@[4] == 0x44
                && v@[5] == 0x42 && v@[6] == 0x00);
        }
    }
    e
}

/// Given a `src`, return the tags contained inside.
///
/// Markers are walked in order; the body of a `MemeDB` APP4 segment after the
/// identifier is decoded. An end-of-image marker first means there are no
/// tags.
#[verifier::rlimit(100)]
pub fn read_tags(src: &Vec<u8>) -> (r: Result<Vec<String>, Error>)
    ensures
        match spec_jpeg_read(src@) {
            JpegScan::NoTags => r is Ok && r->Ok_0@ == Seq::<String>::empty(),
            JpegScan::Truncated => r == Err::<Vec<String>, Error>(Error::Io),
            JpegScan::Bad => r == Err::<Vec<String>, Error>(Error::InvalidSource),
            JpegScan::FoundAt(p) => match spec_decode_tags(src@.skip(p), Seq::<u8>::empty()) {
                Ok(ts) => r is Ok && strs_view(r->Ok_0@) == ts,
                Err(e) => r is Err && r->Err_0 == e,
            },
        },
{
    let srclen = src.len();
    let mut pos: usize = 0;
    let mut marker = match read_marker(src, &mut pos) {
        Ok(v) => v,
        Err(e) => {
            return Err(e);
        },
    };
    proof {
        lemma_ff_run_bounds(src@, 1);
    }
    loop
        invariant
            pos <= srclen,
            srclen == src@.len(),
            spec_jpeg_read(src@) == jpeg_scan(src@, marker, pos as int),
        decreases src@.len() - pos,
    {
        let ghost q0 = pos as int;
        let ghost mmark = marker;
        if marker == 0xD9 {
            return Ok(Vec::new());
        } else if marker == 0x00 || marker == 0xFF {
            return Err(Error::InvalidSource);
        }
        if marker == 0xE4 {
            let l = match read_u16_be(src, &mut pos) {
                Ok(v) => v,
                Err(_) => {
                    proof {
                        assert(jpeg_scan(src@, marker, q0) is Truncated);
                    }
                    return Err(Error::Io);
                },
            };
            let body: u16 = if l >= 2 {
                l - 2
            } else {
                0
            };
            if body < 7 {
                skip(src, &mut pos, body as u64);
            } else {
                let id = match read_heap(src, &mut pos, 7) {
                    Ok(v) => v,
                    Err(_) => {
                        proof {
                            assert(jpeg_scan(src@, marker, q0) is Truncated);
                        }
                        return Err(Error::Io);
                    },
                };
                if is_jpeg_id(&id) {
                    let r = decode_tags(src, &mut pos);
                    return r;
                }
                skip(src, &mut pos, (body - 7) as u64);
            }
        } else if marker == 0x01 || (0xD0 <= marker && marker <= 0xD8) {
        } else {
            let l = match read_u16_be(src, &mut pos) {
                Ok(v) => v,
                Err(_) => {
                    proof {
                        assert(jpeg_scan(src@, marker, q0) is Truncated);
                    }
                    return Err(Error::Io);
                },
            };
            let body: u16 = if l >= 2 {
                l - 2
            } else {
                0
            };
            skip(src, &mut pos, body as u64);
        }
        let ghost q = pos as int;
        if (0xD0 <= marker && marker <= 0xD7) || marker == 0xDA {
            marker = match skip_ecs(src, &mut pos) {
                Ok(v) => v,
                Err(e) => {
                    proof {
                        lemma_ecs_err_io(src@, q);
                        assert(jpeg_scan(src@, mmark, q0) is Truncated);
                    }
                    return Err(e);
                },
            };
            proof {
                lemma_ecs_bounds(src@, q);
            }
        } else {
            marker = match read_marker(src, &mut pos) {
                Ok(v) => v,
                Err(e) => {
                    proof {
                        if q >= srclen {
                            assert(jpeg_scan(src@, mmark, q0) is Truncated);
                        } else if src@[q] != 0xFF {
                            assert(jpeg_scan(src@, mmark, q0) is Bad);
                        } else {
                            assert(jpeg_scan(src@, mmark, q0) is Truncated);
                        }
                    }
                    return Err(e);
                },
            };
            proof {
                if q < srclen && src@[q] == 0xFF && jpeg_ff_run_end(src@, q + 1) is Some {
                    lemma_ff_run_bounds(src@, q + 1);
                }
            }
        }
    }
}

/// The fresh tag segment: marker, length field counting itself, identifier
/// and payload.
pub open spec fn jpeg_tag_segment(payload: Seq<u8>) -> Seq<u8> {
    seq![0xFFu8, 0xE4] + be_bytes(9 + payload.len(), 2) + jpeg_tags_id() + payload
}

/// One marker's own contribution when the writer copies it: the bytes
/// emitted — the marker written as `FF` plus its byte, with its length field
/// and body — and the position after its body. A `MemeDB` APP4 segment
/// contributes nothing; a source that ends inside a segment reads as `Io`.
pub open spec fn jpeg_seg_step(src: Seq<u8>, m: u8, pos: int) -> Result<(Seq<u8>, int), Error> {
    let len = src.len() as int;
    if m == 0xE4 {
        if pos + 2 > len {
            Err(Error::Io)
        } else {
            let body = jpeg_body_len(be_val(src.subrange(pos, pos + 2)));
            if body < 7 {
                let q = spec_skip(len, pos + 2, body);
                Ok((seq![0xFFu8, 0xE4] + src.subrange(pos, q), q))
            } else if pos + 9 > len {
                Err(Error::Io)
            } else if src.subrange(pos + 2, pos + 9) == jpeg_tags_id() {
                Ok((Seq::empty(), spec_skip(len, pos + 9, body - 7)))
            } else {
                let q = spec_skip(len, pos + 9, body - 7);
                Ok((seq![0xFFu8, 0xE4] + src.subrange(pos, q), q))
            }
        }
    } else if jpeg_is_standalone(m) {
        Ok((seq![0xFFu8, m], pos))
    } else {
        if pos + 2 > len {
            Err(Error::Io)
        } else {
            let body = jpeg_body_len(be_val(src.subrange(pos, pos + 2)));
            let q = spec_skip(len, pos + 2, body);
            Ok((seq![0xFFu8, m] + src.subrange(pos, q), q))
        }
    }
}

/// The bytes the writer emits while walking the markers, starting on marker
/// `m` whose body begins at `pos`: every marker and its body copied — with
/// `0xFF` padding reduced to the single `0xFF` each marker is written with —
/// except old `MemeDB` APP4 segments, and the fresh tag segment inserted
/// before the first marker that is neither APP0 nor APP1.
#[verifier::opaque]
pub open spec fn jpeg_copy(src: Seq<u8>, m: u8, pos: int, ins: bool, payload: Seq<u8>) -> Result<
    Seq<u8>,
    Error,
>
    decreases src.len() - pos when 0 <= pos <= src.len()
{
    let len = src.len() as int;
    let need_ins = !ins && m != 0xE0 && m != 0xE1;
    if need_ins && 9 + payload.len() > 0xFFFF {
        Err(Error::ChunkSizeOverflow)
    } else {
        let pre: Seq<u8> = if need_ins {
            jpeg_tag_segment(payload)
        } else {
            Seq::empty()
        };
        let ins2 = ins || need_ins;
        if m == 0xD9 {
            Ok(pre + seq![0xFFu8, 0xD9])
        } else if m == 0x00 || m == 0xFF {
            Err(Error::InvalidSource)
        } else {
            match jpeg_seg_step(src, m, pos) {
                Err(e) => Err(e),
                Ok((em, q)) => {
                    if jpeg_is_ecs(m) {
                        match jpeg_ecs(src, q) {
                            Err(e) => Err(e),
                            Ok((eb, m2, q2)) => match jpeg_copy(
                                src,
                                m2,
                                if pos < q2 <= src.len() {
                                    q2
                                } else {
                                    pos + 1
                                },
                                ins2,
                                payload,
                            ) {
                                Ok(o) => Ok(pre + em + eb + o),
                                Err(e) => Err(e),
                            },
                        }
                    } else {
                        if q >= len {
                            Err(Error::Io)
                        } else if src[q] != 0xFF {
                            Err(Error::InvalidSource)
                        } else {
                            match jpeg_ff_run_end(src, q + 1) {
                                None => Err(Error::Io),
                                Some(p) => match jpeg_copy(
                                    src,
                                    src[p],
                                    if pos < p + 1 <= src.len() {
                                        p + 1
                                    } else {
                                        pos + 1
                                    },
                                    ins2,
                                    payload,
                                ) {
                                    Ok(o) => Ok(pre + em + o),
                                    Err(e) => Err(e),
                                },
                            }
                        }
                    }
                },
            }
        }
    }
}

/// The fresh segment the writer owes before marker `m`, given whether one
/// was already inserted.
pub open spec fn jpeg_pre(m: u8, ins: bool, payload: Seq<u8>) -> Seq<u8> {
    if !ins && m != 0xE0 && m != 0xE1 {
        jpeg_tag_segment(payload)
    } else {
        Seq::empty()
    }
}

proof fn lemma_copy_overflow(src: Seq<u8>, m: u8, pos: int, ins: bool, payload: Seq<u8>)
    requires
        0 <= pos <= src.len(),
        !ins && m != 0xE0 && m != 0xE1,
        9 + payload.len() > 0xFFFF,
    ensures
        jpeg_copy(src, m, pos, ins, payload) == Err::<Seq<u8>, Error>(Error::ChunkSizeOverflow),
{
    reveal(jpeg_copy);
}

proof fn lemma_copy_fits(src: Seq<u8>, m: u8, pos: int, ins: bool, payload: Seq<u8>)
    requires
        0 <= pos <= src.len(),
        !(!ins && m != 0xE0 && m != 0xE1) || 9 + payload.len() <= 0xFFFF,
    ensures
        m == 0xD9 ==> jpeg_copy(src, m, pos, ins, payload) == Ok::<Seq<u8>, Error>(
            jpeg_pre(m, ins, payload) + seq![0xFFu8, 0xD9],
        ),
        m == 0x00 || m == 0xFF ==> jpeg_copy(src, m, pos, ins, payload) == Err::<Seq<u8>, Error>(
            Error::InvalidSource,
        ),
        m != 0xD9 && m != 0x00 && m != 0xFF && jpeg_seg_step(src, m, pos) is Err ==> jpeg_copy(
            src,
            m,
            pos,
            ins,
            payload,
        ) == Err::<Seq<u8>, Error>(jpeg_seg_step(src, m, pos)->Err_0),
{
    reveal(jpeg_copy);
}

proof fn lemma_copy_step_ecs(src: Seq<u8>, m: u8, pos: int, ins: bool, payload: Seq<u8>)
    requires
        0 <= pos <= src.len(),
        !(!ins && m != 0xE0 && m != 0xE1) || 9 + payload.len() <= 0xFFFF,
        m != 0xD9 && m != 0x00 && m != 0xFF,
        jpeg_is_ecs(m),
        jpeg_seg_step(src, m, pos) is Ok,
    ensures
        ({
            let (em, q) = jpeg_seg_step(src, m, pos)->Ok_0;
            let pre = jpeg_pre(m, ins, payload);
            jpeg_copy(src, m, pos, ins, payload) == (match jpeg_ecs(src, q) {
                Err(e) => Err::<Seq<u8>, Error>(e),
                Ok((eb, m2, q2)) => match jpeg_copy(
                    src,
                    m2,
                    if pos < q2 <= src.len() {
                        q2
                    } else {
                        pos + 1
                    },
                    ins || (m != 0xE0 && m != 0xE1),
                    payload,
                ) {
                    Ok(o) => Ok::<Seq<u8>, Error>(pre + em + eb + o),
                    Err(e) => Err::<Seq<u8>, Error>(e),
                },
            })
        }),
{
    reveal(jpeg_copy);
    assert(jpeg_is_standalone(m) || m == 0xDA);
}

proof fn lemma_copy_step_marker(src: Seq<u8>, m: u8, pos: int, ins: bool, payload: Seq<u8>)
    requires
        0 <= pos <= src.len(),
        !(!ins && m != 0xE0 && m != 0xE1) || 9 + payload.len() <= 0xFFFF,
        m != 0xD9 && m != 0x00 && m != 0xFF,
        !jpeg_is_ecs(m),
        jpeg_seg_step(src, m, pos) is Ok,
    ensures
        ({
            let (em, q) = jpeg_seg_step(src, m, pos)->Ok_0;
            let pre = jpeg_pre(m, ins, payload);
            jpeg_copy(src, m, pos, ins, payload) == (if q >= src.len() {
                Err::<Seq<u8>, Error>(Error::Io)
            } else if src[q] != 0xFF {
                Err::<Seq<u8>, Error>(Error::InvalidSource)
            } else {
                match jpeg_ff_run_end(src, q + 1) {
                    None => Err::<Seq<u8>, Error>(Error::Io),
                    Some(p) => match jpeg_copy(
                        src,
                        src[p],
                        if pos < p + 1 <= src.len() {
                            p + 1
                        } else {
                            pos + 1
                        },
                        ins || (m != 0xE0 && m != 0xE1),
                        payload,
                    ) {
                        Ok(o) => Ok::<Seq<u8>, Error>(pre + em + o),
                        Err(e) => Err::<Seq<u8>, Error>(e),
                    },
                }
            })
        }),
{
    reveal(jpeg_copy);
}

/// What writing puts in the sink: the two copied start-of-image bytes, then
/// the walked markers with the fresh tag segment inserted.
pub open spec fn spec_jpeg_write(src: Seq<u8>, payload: Seq<u8>) -> Result<Seq<u8>, Error> {
    let len = src.len() as int;
    let p2 = spec_skip(len, 0, 2);
    if p2 >= len {
        Err(Error::Io)
    } else if src[p2] != 0xFF {
        Err(Error::InvalidSource)
    } else {
        match jpeg_ff_run_end(src, p2 + 1) {
            None => Err(Error::Io),
            Some(p) => match jpeg_copy(src, src[p], p + 1, false, payload) {
                Ok(o) => Ok(src.subrange(0, p2) + o),
                Err(e) => Err(e),
            },
        }
    }
}

/// Copy one marker segment: the marker written as `FF` plus its byte, then
/// the length field and body copied from the source.
fn copy_segment(src: &Vec<u8>, pos: &mut usize, dest: &mut Vec<u8>, marker: u8) -> (r: Result<
    (),
    Error,
>)
    requires
        *old(pos) <= src@.len(),
        marker != 0xE4,
        !jpeg_is_standalone(marker),
    ensures
        *final(pos) <= src@.len(),
        match jpeg_seg_step(src@, marker, *old(pos) as int) {
            Ok((em, q)) => r is Ok && *final(pos) == q && final(dest)@ == old(dest)@ + em,
            Err(e) => r is Err && r->Err_0 == e && final(dest)@ == old(dest)@,
        },
{
    let ghost q0 = *pos as int;
    let hp0 = *pos;
    let l = match read_u16_be(src, pos) {
        Ok(v) => v,
        Err(_) => {
            return Err(Error::Io);
        },
    };
    let body: u16 = if l >= 2 {
        l - 2
    } else {
        0
    };
    dest.push(0xFF);
    dest.push(marker);
    let mut hp = hp0;
    passthrough(src, &mut hp, dest, 2);
    passthrough(src, pos, dest, body as u64);
    proof {
        assert(final(dest)@ =~= old(dest)@ + (seq![0xFFu8, marker] + src@.subrange(
            q0,
            *pos as int,
        )));
    }
    Ok(())
}

/// Handle one APP4 segment: a segment that opens with the tag identifier is
/// stepped over, any other is copied like a plain segment.
fn copy_app4(src: &Vec<u8>, pos: &mut usize, dest: &mut Vec<u8>) -> (r: Result<(), Error>)
    requires
        *old(pos) <= src@.len(),
    ensures
        *final(pos) <= src@.len(),
        match jpeg_seg_step(src@, 0xE4, *old(pos) as int) {
            Ok((em, q)) => r is Ok && *final(pos) == q && final(dest)@ == old(dest)@ + em,
            Err(e) => r is Err && r->Err_0 == e && final(dest)@ == old(dest)@,
        },
{
    let ghost q0 = *pos as int;
    let hp0 = *pos;
    let l = match read_u16_be(src, pos) {
        Ok(v) => v,
        Err(_) => {
            return Err(Error::Io);
        },
    };
    let body: u16 = if l >= 2 {
        l - 2
    } else {
        0
    };
    if body < 7 {
        dest.push(0xFF);
        dest.push(0xE4);
        let mut hp = hp0;
        passthrough(src, &mut hp, dest, 2);
        passthrough(src, pos, dest, body as u64);
        proof {
            assert(final(dest)@ =~= old(dest)@ + (seq![0xFFu8, 0xE4] + src@.subrange(
                q0,
                *pos as int,
            )));
        }
        return Ok(());
    }
    let id = match read_heap(src, pos, 7) {
        Ok(v) => v,
        Err(_) => {
            return Err(Error::Io);
        },
    };
    if is_jpeg_id(&id) {
        skip(src, pos, (body - 7) as u64);
        proof {
            assert(final(dest)@ =~= old(dest)@ + Seq::<u8>::empty());
        }
        Ok(())
    } else {
        dest.push(0xFF);
        dest.push(0xE4);
        let mut hp = hp0;
        passthrough(src, &mut hp, dest, 2);
        let mut ip: usize = 0;
        passthrough(&id, &mut ip, dest, 7);
        passthrough(src, pos, dest, (body - 7) as u64);
        proof {
            assert(id@.subrange(0, 7) =~= id@);
            assert(final(dest)@ =~= old(dest)@ + (seq![0xFFu8, 0xE4] + src@.subrange(
                q0,
                *pos as int,
            )));
        }
        Ok(())
    }
}

/// Copy the markers from `m` on to the sink, dropping old tag segments and
/// inserting the fresh one before the first marker that is neither APP0 nor
/// APP1.
#[verifier::rlimit(100)]
fn copy_markers(
    src: &Vec<u8>,
    pos: &mut usize,
    dest: &mut Vec<u8>,
    m: u8,
    payload: &Vec<u8>,
) -> (r: Result<(), Error>)
    requires
        *old(pos) <= src@.len(),
    ensures
        match jpeg_copy(src@, m, *old(pos) as int, false, payload@) {
            Ok(o) => r is Ok && final(dest)@ == old(dest)@ + o,
            Err(e) => r is Err && r->Err_0 == e,
        },
{
    let srclen = src.len();
    let ghost m0 = m;
    let ghost p0 = *pos as int;
    let mut marker = m;
    let mut inserted = false;
    loop
        invariant_except_break
            *pos <= srclen,
            srclen == src@.len(),
            p0 == *old(pos) as int,
            m0 == m,
            (match jpeg_copy(src@, marker, *pos as int, inserted, payload@) {
                Ok(o) => Ok::<Seq<u8>, Error>(dest@ + o),
                Err(e) => Err::<Seq<u8>, Error>(e),
            }) == (match jpeg_copy(src@, m0, p0, false, payload@) {
                Ok(o) => Ok::<Seq<u8>, Error>(old(dest)@ + o),
                Err(e) => Err::<Seq<u8>, Error>(e),
            }),
        ensures
            jpeg_copy(src@, m0, p0, false, payload@) is Ok,
            dest@ == old(dest)@ + jpeg_copy(src@, m0, p0, false, payload@)->Ok_0,
        decreases src@.len() - *pos,
    {
        let ghost q0 = *pos as int;
        let ghost mm = marker;
        let ghost ins_in = inserted;
        let ghost pre_dest = dest@;
        if !inserted && marker != 0xE0 && marker != 0xE1 {
            if payload.len() as u64 > 0xFFF6u64 {
                proof {
                    lemma_copy_overflow(src@, mm, q0, ins_in, payload@);
                }
                return Err(Error::ChunkSizeOverflow);
            }
            inserted = true;
            dest.push(0xFF);
            dest.push(0xE4);
            push_u16_be(dest, 9 + payload.len() as u16);
            dest.push(0x4D);
            dest.push(0x65);
            dest.push(0x6D);
            dest.push(0x65);
            dest.push(0x44);
            dest.push(0x42);
            dest.push(0x00);
            let mut pp: usize = 0;
            passthrough(payload, &mut pp, dest, payload.len() as u64);
            proof {
                assert(payload@.subrange(0, payload@.len() as int) =~= payload@);
                assert(dest@ =~= pre_dest + jpeg_tag_segment(payload@));
            }
        }
        let ghost pre: Seq<u8> = jpeg_pre(mm, ins_in, payload@);
        proof {
            assert(dest@ =~= pre_dest + pre);
            lemma_copy_fits(src@, mm, q0, ins_in, payload@);
        }
        if marker == 0xD9 {
            dest.push(0xFF);
            dest.push(0xD9);
            proof {
                assert(dest@ =~= pre_dest + (pre + seq![0xFFu8, 0xD9]));
                assert(dest@ =~= old(dest)@ + jpeg_copy(src@, m0, p0, false, payload@)->Ok_0);
            }
            break ;
        } else if marker == 0x00 || marker == 0xFF {
            return Err(Error::InvalidSource);
        }
        let ghost dest_arm = dest@;
        let ghost mut em: Seq<u8> = Seq::empty();
        if marker == 0xE4 {
            match copy_app4(src, pos, dest) {
                Ok(_) => {
                    proof {
                        em = jpeg_seg_step(src@, mm, q0)->Ok_0.0;
                    }
                },
                Err(e) => {
                    return Err(e);
                },
            }
        } else if marker == 0x01 || (0xD0 <= marker && marker <= 0xD8) {
            dest.push(0xFF);
            dest.push(marker);
            proof {
                em = seq![0xFFu8, mm];
                assert(dest@ =~= dest_arm + em);
            }
        } else {
            match copy_segment(src, pos, dest, marker) {
                Ok(_) => {
                    proof {
                        em = jpeg_seg_step(src@, mm, q0)->Ok_0.0;
                    }
                },
                Err(e) => {
                    return Err(e);
                },
            }
        }
        proof {
            assert(jpeg_seg_step(src@, mm, q0) == Ok::<(Seq<u8>, int), Error>((em, *pos as int)));
            assert(dest@ == dest_arm + em);
        }
        let ghost q = *pos as int;
        proof {
            if (0xD0 <= mm && mm <= 0xD7) || mm == 0xDA {
                lemma_copy_step_ecs(src@, mm, q0, ins_in, payload@);
            } else {
                lemma_copy_step_marker(src@, mm, q0, ins_in, payload@);
            }
        }
        if (0xD0 <= marker && marker <= 0xD7) || marker == 0xDA {
            marker = match passthrough_ecs(src, pos, dest) {
                Ok(v) => v,
                Err(e) => {
                    return Err(e);
                },
            };
            proof {
                lemma_ecs_bounds(src@, q);
                let (eb, m2, q2) = jpeg_ecs(src@, q)->Ok_0;
                let co = jpeg_copy(src@, m2, q2, ins_in || (mm != 0xE0 && mm != 0xE1), payload@);
                if co is Ok {
                    assert(pre_dest + (pre + em + eb + co->Ok_0) =~= dest@ + co->Ok_0);
                }
            }
        } else {
            marker = match read_marker(src, pos) {
                Ok(v) => v,
                Err(e) => {
                    return Err(e);
                },
            };
            proof {
                if q < srclen && src@[q] == 0xFF && jpeg_ff_run_end(src@, q + 1) is Some {
                    lemma_ff_run_bounds(src@, q + 1);
                    let p = jpeg_ff_run_end(src@, q + 1)->0;
                    let co = jpeg_copy(src@, src@[p], p + 1, ins_in || (mm != 0xE0 && mm != 0xE1), payload@);
                    if co is Ok {
                        assert(pre_dest + (pre + em + co->Ok_0) =~= dest@ + co->Ok_0);
                    }
                }
            }
        }
    }
    Ok(())
}

/// Read data from `src`, set the provided `tags`, and write to `dest`.
///
/// This function will remove any tags that previously existed in `src`. The
/// fresh tag segment goes in front of the first marker that is neither APP0
/// nor APP1, keeping it after the conventional JFIF and Exif segments. On an
/// error the sink may already hold a partial copy, which the caller discards.
pub fn write_tags(src: &Vec<u8>, dest: &mut Vec<u8>, tags: &Vec<String>) -> (r: Result<(), Error>)
    ensures
        ({
            let payload = spec_encode_tags(spec_normalize(strs_view(tags@)));
            match spec_jpeg_write(src@, payload) {
                Ok(out) => r is Ok && final(dest)@ == old(dest)@ + out,
                Err(e) => r is Err && r->Err_0 == e,
            }
        }),
{
    let srclen = src.len();
    let mut pos: usize = 0;
    passthrough(src, &mut pos, dest, 2);
    let ghost p2 = pos as int;
    let marker = match read_marker(src, &mut pos) {
        Ok(v) => v,
        Err(e) => {
            return Err(e);
        },
    };
    proof {
        if p2 < srclen && src@[p2] == 0xFF && jpeg_ff_run_end(src@, p2 + 1) is Some {
            lemma_ff_run_bounds(src@, p2 + 1);
        }
    }
    let norm = normalize_tags(tags);
    let mut payload: Vec<u8> = Vec::new();
    encode_tags(&norm, &mut payload);
    match copy_markers(src, &mut pos, dest, marker, &payload) {
        Ok(_) => (),
        Err(e) => {
            return Err(e);
        },
    }
    proof {
        let p = jpeg_ff_run_end(src@, p2 + 1)->0;
        assert(dest@ =~= old(dest)@ + (src@.subrange(0, p2) + jpeg_copy(
            src@,
            src@[p],
            p + 1,
            false,
            payload@,
        )->Ok_0));
    }
    Ok(())
}

} // verus!
