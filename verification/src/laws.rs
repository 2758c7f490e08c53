//! The laws that tie writing and reading together: what a writer has put
//! into a sink, a reader finds again.

use crate::error::Error;
use crate::formats::{magic_matches, spec_identify, Format};
use crate::png;
use crate::spec_format_read;
use crate::utils::{
    be_val, lemma_be_bytes_len, lemma_be_val_be_bytes, lemma_decode_encode_tags,
    lemma_normalize_contains, pow256, spec_encode_tags, spec_normalize, spec_skip,
};
use vstd::prelude::*;

verus! {

/// Round trip for PNG: when writing tags over a source whose first chunk is
/// neither the tag chunk nor `IEND` succeeds, reading the written bytes
/// yields exactly the written tags in normal form — the same set of tags.
pub proof fn lemma_png_read_after_write(src: Seq<u8>, ts: Seq<Seq<char>>, out: Seq<u8>)
    requires
        png::spec_png_write(src, spec_encode_tags(spec_normalize(ts))) == Ok::<Seq<u8>, Error>(
            out,
        ),
        src.len() >= 16 ==> src.subrange(12, 16) != png::meme_type() && src.subrange(12, 16)
            != png::iend_type(),
    ensures
        spec_format_read(Format::Png, out) == Ok::<Seq<Seq<char>>, Error>(spec_normalize(ts)),
{
    let payload = spec_encode_tags(spec_normalize(ts));
    let len = src.len() as int;
    let p8 = spec_skip(len, 0, 8);
    assert(p8 + 8 <= len);
    assert(p8 == 8);
    let l0 = be_val(src.subrange(p8, p8 + 4)) as int;
    let end0 = spec_skip(len, spec_skip(len, p8 + 8, l0), 4);
    let rest = png::png_copy_rest(src, end0)->Some_0;
    assert(png::png_copy_rest(src, end0) is Some);
    assert(end0 + 8 <= len);
    assert(end0 == 20 + l0);
    let chunk = png::png_tag_chunk(payload);
    assert(out == src.subrange(0, end0) + chunk + rest);
    let plen = payload.len() as int;
    lemma_be_bytes_len(payload.len(), 4);
    lemma_be_bytes_len(png::crc32_of(png::meme_type() + payload) as nat, 4);
    assert(chunk.len() == 12 + plen);
    let olen = out.len() as int;
    assert(olen == end0 + 12 + plen + rest.len());

    // the reader starts after the magic and sees the first chunk unchanged
    assert(spec_skip(olen, 0, 8) == 8);
    assert(out.subrange(8, 12) =~= src.subrange(8, 12));
    assert(out.subrange(12, 16) =~= src.subrange(12, 16));
    assert(be_val(out.subrange(8, 12)) as int == l0);
    // it steps over it and lands on the fresh tag chunk
    assert(spec_skip(olen, spec_skip(olen, 16, l0), 4) == end0);
    assert(out.subrange(end0, end0 + 4) =~= crate::utils::be_bytes(payload.len(), 4));
    assert(out.subrange(end0 + 4, end0 + 8) =~= png::meme_type());
    assert(pow256(4) == 0x100000000) by {
        assert(pow256(0) == 1);
        assert(pow256(1) == 0x100);
        assert(pow256(2) == 0x10000);
        assert(pow256(3) == 0x1000000);
    }
    lemma_be_val_be_bytes(payload.len(), 4);
    assert(be_val(out.subrange(end0, end0 + 4)) as int == plen);
    assert(end0 + 8 + plen + 4 <= olen);
    assert(out.subrange(end0 + 8, end0 + 8 + plen) =~= payload);
    assert(out.subrange(end0 + 8 + plen, end0 + 8 + plen + 4) =~= crate::utils::be_bytes(
        png::crc32_of(png::meme_type() + payload) as nat,
        4,
    ));
    lemma_be_val_be_bytes(png::crc32_of(png::meme_type() + payload) as nat, 4);
    assert(png::png_scan(out, end0) == png::PngScan::Found(
        payload,
        png::crc32_of(png::meme_type() + payload),
    ));
    assert(png::png_scan(out, 8) == png::png_scan(out, end0));
    // the checksum matches and the payload decodes to the written tags
    lemma_decode_encode_tags(spec_normalize(ts), Seq::empty());
    assert(payload + Seq::<u8>::empty() =~= payload);
}

/// Any gathered chunk run holds at least the 8 header bytes of its `IEND`.
proof fn lemma_png_copy_rest_min(src: Seq<u8>, q: int)
    requires
        0 <= q <= src.len(),
        png::png_copy_rest(src, q) is Some,
    ensures
        png::png_copy_rest(src, q)->Some_0.len() >= 8,
    decreases src.len() - q,
{
    let len = src.len() as int;
    let l = be_val(src.subrange(q, q + 4)) as int;
    let t = src.subrange(q + 4, q + 8);
    let end = spec_skip(len, spec_skip(len, q + 8, l), 4);
    if t == png::meme_type() {
        lemma_png_copy_rest_min(src, end);
    }
}

/// The chunks the writer gathered read back as the same chunks: they are
/// whole, hold no tag chunk, and end with the source.
proof fn lemma_png_copy_rest_again(src: Seq<u8>, q: int, out: Seq<u8>, d: int)
    requires
        0 <= q <= src.len(),
        0 <= d,
        png::png_copy_rest(src, q) is Some,
        d + png::png_copy_rest(src, q)->Some_0.len() == out.len(),
        out.subrange(d, out.len() as int) == png::png_copy_rest(src, q)->Some_0,
    ensures
        png::png_copy_rest(out, d) == png::png_copy_rest(src, q),
    decreases src.len() - q,
{
    let len = src.len() as int;
    let olen = out.len() as int;
    let r = png::png_copy_rest(src, q)->Some_0;
    assert(q + 8 <= len);
    let l = be_val(src.subrange(q, q + 4)) as int;
    let t = src.subrange(q + 4, q + 8);
    let end = spec_skip(len, spec_skip(len, q + 8, l), 4);
    if t == png::meme_type() {
        lemma_png_copy_rest_again(src, end, out, d);
    } else {
        assert(forall|k: int| 0 <= k < r.len() ==> out.subrange(d, olen)[k] == #[trigger] r[k]);
        if t == png::iend_type() {
            assert(r == src.subrange(q, end));
            assert forall|j: int| 0 <= j < 8 implies #[trigger] out.subrange(d, d + 8)[j] == src[q
                + j] by {
                assert(out.subrange(d, olen)[j] == r[j]);
                assert(r[j] == src.subrange(q, end)[j]);
            }
            assert(out.subrange(d, d + 4) =~= src.subrange(q, q + 4)) by {
                assert(forall|j: int|
                    0 <= j < 4 ==> #[trigger] out.subrange(d, d + 4)[j] == out.subrange(d, d + 8)[j]
                        && src.subrange(q, q + 4)[j] == src[q + j]);
            }
            assert(out.subrange(d + 4, d + 8) =~= src.subrange(q + 4, q + 8)) by {
                assert(forall|j: int|
                    0 <= j < 4 ==> #[trigger] out.subrange(d + 4, d + 8)[j] == out.subrange(
                        d,
                        d + 8,
                    )[4 + j] && src.subrange(q + 4, q + 8)[j] == src[q + 4 + j]);
            }
            assert(be_val(out.subrange(d, d + 4)) as int == l);
            assert(olen == d + (end - q));
            assert(png::png_copy_rest(out, d) == Some(
                out.subrange(d, spec_skip(olen, spec_skip(olen, d + 8, l), 4)),
            ));
            assert(spec_skip(olen, spec_skip(olen, d + 8, l), 4) == d + (end - q));
            assert(out.subrange(d, d + (end - q)) =~= r);
        } else {
            let r2 = png::png_copy_rest(src, end)->Some_0;
            assert(png::png_copy_rest(src, end) is Some);
            assert(r == src.subrange(q, end) + r2);
            assert(end == q + 8 + l + 4) by {
                if end != q + 8 + l + 4 {
                    assert(end == len);
                }
            }
            lemma_png_copy_rest_min(src, end);
            assert(r2.len() >= 8);
            let dr = d + 8 + l + 4;
            assert forall|k: int| 0 <= k < r2.len() implies #[trigger] out.subrange(dr, olen)[k]
                == r2[k] by {
                assert(out.subrange(d, olen)[(8 + l + 4) + k] == r[(8 + l + 4) + k]);
                assert(r[(8 + l + 4) + k] == r2[k]);
            }
            assert(out.subrange(dr, olen) =~= r2);
            lemma_png_copy_rest_again(src, end, out, dr);
            assert forall|j: int| 0 <= j < 8 implies #[trigger] out.subrange(d, d + 8)[j] == src[q
                + j] by {
                assert(out.subrange(d, olen)[j] == r[j]);
                assert(r[j] == src.subrange(q, end)[j]);
            }
            assert(out.subrange(d, d + 4) =~= src.subrange(q, q + 4)) by {
                assert(forall|j: int|
                    0 <= j < 4 ==> #[trigger] out.subrange(d, d + 4)[j] == out.subrange(d, d + 8)[j]
                        && src.subrange(q, q + 4)[j] == src[q + j]);
            }
            assert(out.subrange(d + 4, d + 8) =~= src.subrange(q + 4, q + 8)) by {
                assert(forall|j: int|
                    0 <= j < 4 ==> #[trigger] out.subrange(d + 4, d + 8)[j] == out.subrange(
                        d,
                        d + 8,
                    )[4 + j] && src.subrange(q + 4, q + 8)[j] == src[q + 4 + j]);
            }
            assert(be_val(out.subrange(d, d + 4)) as int == l);
            assert(spec_skip(olen, spec_skip(olen, d + 8, l), 4) == dr);
            assert forall|j: int| 0 <= j < 8 + l + 4 implies #[trigger] out.subrange(d, dr)[j]
                == src.subrange(q, end)[j] by {
                assert(out.subrange(d, olen)[j] == r[j]);
                assert(r[j] == src.subrange(q, end)[j]);
            }
            assert(out.subrange(d, dr) =~= src.subrange(q, end));
            assert(png::png_copy_rest(out, d) == Some(src.subrange(q, end) + r2));
        }
    }
}

/// Idempotence for PNG: writing the same tags over what the writer produced
/// reproduces it byte for byte.
pub proof fn lemma_png_write_idempotent(src: Seq<u8>, ts: Seq<Seq<char>>, out: Seq<u8>)
    requires
        png::spec_png_write(src, spec_encode_tags(spec_normalize(ts))) == Ok::<Seq<u8>, Error>(
            out,
        ),
    ensures
        png::spec_png_write(out, spec_encode_tags(spec_normalize(ts))) == Ok::<Seq<u8>, Error>(
            out,
        ),
{
    let payload = spec_encode_tags(spec_normalize(ts));
    let len = src.len() as int;
    let p8 = spec_skip(len, 0, 8);
    assert(p8 + 8 <= len);
    assert(p8 == 8);
    let l0 = be_val(src.subrange(p8, p8 + 4)) as int;
    let end0 = spec_skip(len, spec_skip(len, p8 + 8, l0), 4);
    let rest = png::png_copy_rest(src, end0)->Some_0;
    assert(png::png_copy_rest(src, end0) is Some);
    assert(end0 + 8 <= len);
    assert(end0 == 20 + l0);
    let chunk = png::png_tag_chunk(payload);
    assert(out == src.subrange(0, end0) + chunk + rest);
    let plen = payload.len() as int;
    lemma_be_bytes_len(payload.len(), 4);
    lemma_be_bytes_len(png::crc32_of(png::meme_type() + payload) as nat, 4);
    assert(chunk.len() == 12 + plen);
    let olen = out.len() as int;
    assert(olen == end0 + 12 + plen + rest.len());
    lemma_png_copy_rest_min(src, end0);
    assert(rest.len() >= 8);

    // the second write reads the same header chunk and lands its fresh tag
    // chunk in the same place
    assert(spec_skip(olen, 0, 8) == 8);
    assert(out.subrange(8, 12) =~= src.subrange(8, 12));
    assert(be_val(out.subrange(8, 12)) as int == l0);
    assert(spec_skip(olen, spec_skip(olen, 16, l0), 4) == end0);
    // it drops the tag chunk it wrote and gathers the same chunks again
    assert(out.subrange(end0, end0 + 4) =~= crate::utils::be_bytes(payload.len(), 4));
    assert(out.subrange(end0 + 4, end0 + 8) =~= png::meme_type());
    assert(pow256(4) == 0x100000000) by {
        assert(pow256(0) == 1);
        assert(pow256(1) == 0x100);
        assert(pow256(2) == 0x10000);
        assert(pow256(3) == 0x1000000);
    }
    lemma_be_val_be_bytes(payload.len(), 4);
    assert(be_val(out.subrange(end0, end0 + 4)) as int == plen);
    let dr = end0 + 12 + plen;
    assert(spec_skip(olen, spec_skip(olen, end0 + 8, plen), 4) == dr);
    assert(png::png_copy_rest(out, end0) == png::png_copy_rest(out, dr));
    assert forall|k: int| 0 <= k < rest.len() implies #[trigger] out.subrange(dr, olen)[k]
        == rest[k] by {
        assert(out[dr + k] == rest[k]);
        assert(out.subrange(dr, olen)[k] == out[dr + k]);
    }
    assert(out.subrange(dr, olen) =~= rest);
    lemma_png_copy_rest_again(src, end0, out, dr);
    assert(png::png_copy_rest(out, dr) == Some(rest));
    assert(out.subrange(0, end0) =~= out.subrange(0, end0));
    assert(png::spec_png_write(out, payload) == Ok::<Seq<u8>, Error>(
        out.subrange(0, end0) + chunk + rest,
    ));
    assert(out.subrange(0, end0) =~= src.subrange(0, end0));
}

/// How many bytes the sub-block framing of a payload takes.
pub open spec fn gif_frame_len(p: Seq<u8>) -> int
    decreases p.len(),
{
    if p.len() == 0 {
        1
    } else if p.len() > 255 {
        256 + gif_frame_len(p.skip(255))
    } else {
        p.len() + 2int
    }
}

proof fn lemma_gif_frame_len(p: Seq<u8>)
    ensures
        crate::gif::gif_subblocks_frame(p).len() == gif_frame_len(p),
        gif_frame_len(p) >= 1,
    decreases p.len(),
{
    if p.len() > 255 {
        lemma_gif_frame_len(p.skip(255));
    }
}

/// Reading back a framed payload gathers exactly the payload again.
proof fn lemma_gif_frame_data(p: Seq<u8>, out: Seq<u8>, pos: int)
    requires
        0 <= pos,
        pos + gif_frame_len(p) <= out.len(),
        out.subrange(pos, pos + gif_frame_len(p)) == crate::gif::gif_subblocks_frame(p),
    ensures
        crate::gif::gif_subblock_data(out, pos) == Some(p),
    decreases p.len(),
{
    lemma_gif_frame_len(p);
    let fr = crate::gif::gif_subblocks_frame(p);
    assert(forall|k: int|
        0 <= k < fr.len() ==> out.subrange(pos, pos + gif_frame_len(p))[k] == #[trigger] fr[k]);
    if p.len() == 0 {
        assert(out[pos] == fr[0]);
        assert(crate::gif::gif_subblock_data(out, pos) == Some(Seq::<u8>::empty()));
        assert(p =~= Seq::<u8>::empty());
    } else if p.len() > 255 {
        assert(out[pos] == fr[0]);
        assert(fr[0] == 255);
        lemma_gif_frame_len(p.skip(255));
        let l2 = gif_frame_len(p.skip(255));
        let fr2 = crate::gif::gif_subblocks_frame(p.skip(255));
        assert forall|k: int|
            0 <= k < l2 implies out.subrange(pos + 256, pos + 256 + l2)[k] == fr2[k] by {
            assert(out.subrange(pos, pos + gif_frame_len(p))[256 + k] == fr[256 + k]);
            assert(fr[256 + k] == fr2[k]);
        }
        assert(out.subrange(pos + 256, pos + 256 + l2) =~= fr2);
        lemma_gif_frame_data(p.skip(255), out, pos + 256);
        assert forall|k: int|
            0 <= k < 255 implies out.subrange(pos + 1, pos + 256)[k] == p.take(255)[k] by {
            assert(out.subrange(pos, pos + gif_frame_len(p))[1 + k] == fr[1 + k]);
            assert(fr[1 + k] == p.take(255)[k]);
        }
        assert(out.subrange(pos + 1, pos + 256) =~= p.take(255));
        assert(p.take(255) + p.skip(255) =~= p);
    } else {
        assert(out[pos] == fr[0]);
        assert(fr[0] == p.len());
        assert(out[pos + 1 + p.len()] == fr[1 + p.len() as int]);
        assert(fr[1 + p.len() as int] == 0);
        assert(crate::gif::gif_subblock_data(out, pos + 1 + p.len()) == Some(Seq::<u8>::empty()));
        assert forall|k: int|
            0 <= k < p.len() implies out.subrange(pos + 1, pos + 1 + p.len() as int)[k]
            == p[k] by {
            assert(out.subrange(pos, pos + gif_frame_len(p))[1 + k] == fr[1 + k]);
            assert(fr[1 + k] == p[k]);
        }
        assert(out.subrange(pos + 1, pos + 1 + p.len() as int) =~= p);
        assert(p + Seq::<u8>::empty() =~= p);
    }
}

/// Round trip for GIF: when writing tags succeeds, reading the written bytes
/// yields exactly the written tags in normal form — the same set of tags.
pub proof fn lemma_gif_read_after_write(src: Seq<u8>, ts: Seq<Seq<char>>, out: Seq<u8>)
    requires
        crate::gif::spec_gif_write(src, spec_encode_tags(spec_normalize(ts))) == Ok::<
            Seq<u8>,
            Error,
        >(out),
    ensures
        spec_format_read(Format::Gif, out) == Ok::<Seq<Seq<char>>, Error>(spec_normalize(ts)),
{
    let payload = spec_encode_tags(spec_normalize(ts));
    let len = src.len() as int;
    assert(crate::gif::gif_header_end(src) is Some);
    let h = crate::gif::gif_header_end(src)->0;
    let copied = crate::gif::gif_copy_blocks(src, h)->Ok_0;
    assert(crate::gif::gif_copy_blocks(src, h) is Ok);
    let ext = crate::gif::gif_tag_extension(payload);
    assert(out == src.subrange(0, h) + ext + copied);
    // the write went past the descriptor and read at least one block byte
    let p10 = spec_skip(len, 0, 10);
    assert(p10 < len);
    assert(p10 == 10);
    assert(h < len) by {
        if h >= len {
            assert(crate::gif::gif_copy_blocks(src, h) is Err);
        }
    }
    assert(13 <= h <= len);
    lemma_gif_frame_len(payload);
    assert(ext.len() == 14 + gif_frame_len(payload));
    let olen = out.len() as int;
    assert(olen == h + ext.len() + copied.len());

    // the reader computes the same header end over the written bytes
    assert(out.subrange(0, h) =~= src.subrange(0, h));
    assert(out[10] == src[10]);
    assert(spec_skip(olen, 0, 10) == 10);
    assert(spec_skip(olen, 11, 2) == 13);
    assert(spec_skip(len, 11, 2) == 13);
    assert(crate::gif::gif_header_end(out) == Some(h)) by {
        if src[10] >> 7 == 1 {
            assert(h == spec_skip(len, 13, crate::gif::color_table_size_spec(src[10]) as int));
            assert(h == 13 + crate::gif::color_table_size_spec(src[10]) as int);
            assert(spec_skip(olen, 13, crate::gif::color_table_size_spec(out[10]) as int) == h);
        }
    }
    // it lands on the fresh tag extension
    assert(out[h] == 0x21);
    assert(out[h + 1] == 0xFF);
    assert(out[h + 2] == 11);
    assert(out.subrange(h + 3, h + 14) =~= crate::gif::gif_identifier());
    assert(out.subrange(h + 14, h + 14 + gif_frame_len(payload))
        =~= crate::gif::gif_subblocks_frame(payload));
    lemma_gif_frame_data(payload, out, h + 14);
    assert(crate::gif::gif_scan(out, h) == crate::gif::GifScan::Found(payload));
    lemma_decode_encode_tags(spec_normalize(ts), Seq::empty());
    assert(payload + Seq::<u8>::empty() =~= payload);
}

/// A fresh tag segment standing at `d` parses back to its payload.
proof fn lemma_jpeg_tagseg_parse(payload: Seq<u8>, out: Seq<u8>, d: int)
    requires
        0 <= d,
        9 + payload.len() <= 0xFFFF,
        d + crate::jpeg::jpeg_tag_segment(payload).len() <= out.len(),
        out.subrange(d, d + crate::jpeg::jpeg_tag_segment(payload).len())
            == crate::jpeg::jpeg_tag_segment(payload),
    ensures
        out[d] == 0xFF,
        out[d + 1] == 0xE4,
        crate::jpeg::jpeg_scan(out, 0xE4, d + 2) == crate::jpeg::JpegScan::FoundAt(d + 11),
        d + 11 + payload.len() <= out.len(),
        out.subrange(d + 11, d + 11 + payload.len() as int) == payload,
    decreases 0int,
{
    let seg = crate::jpeg::jpeg_tag_segment(payload);
    let plen = payload.len() as int;
    crate::utils::lemma_be_bytes_len(9 + payload.len(), 2);
    assert(seg.len() == 11 + plen);
    assert(forall|k: int|
        0 <= k < seg.len() ==> out.subrange(d, d + seg.len() as int)[k] == #[trigger] seg[k]);
    assert(out[d] == seg[0] && out[d + 1] == seg[1]);
    assert(seg[0] == 0xFF && seg[1] == 0xE4);
    assert forall|j: int|
        0 <= j < 2 implies #[trigger] out.subrange(d + 2, d + 4)[j] == crate::utils::be_bytes(
        9 + payload.len(),
        2,
    )[j] by {
        assert(out.subrange(d, d + seg.len() as int)[2 + j] == seg[2 + j]);
        assert(seg[2 + j] == crate::utils::be_bytes(9 + payload.len(), 2)[j]);
    }
    assert(out.subrange(d + 2, d + 4) =~= crate::utils::be_bytes(9 + payload.len(), 2));
    assert(pow256(2) == 0x10000) by {
        assert(pow256(0) == 1);
        assert(pow256(1) == 0x100);
    }
    lemma_be_val_be_bytes(9 + payload.len(), 2);
    assert(be_val(out.subrange(d + 2, d + 4)) == 9 + payload.len());
    assert(crate::jpeg::jpeg_body_len(9 + payload.len()) == 7 + plen);
    assert forall|j: int|
        0 <= j < 7 implies #[trigger] out.subrange(d + 4, d + 11)[j]
        == crate::jpeg::jpeg_tags_id()[j] by {
        assert(out.subrange(d, d + seg.len() as int)[4 + j] == seg[4 + j]);
        assert(seg[4 + j] == crate::jpeg::jpeg_tags_id()[j]);
    }
    assert(out.subrange(d + 4, d + 11) =~= crate::jpeg::jpeg_tags_id());
    assert forall|j: int|
        0 <= j < plen implies #[trigger] out.subrange(d + 11, d + 11 + plen)[j] == payload[j] by {
        assert(out.subrange(d, d + seg.len() as int)[11 + j] == seg[11 + j]);
        assert(seg[11 + j] == payload[j]);
    }
    assert(out.subrange(d + 11, d + 11 + plen) =~= payload);
    assert(crate::jpeg::jpeg_scan(out, 0xE4u8, d + 2) == crate::jpeg::JpegScan::FoundAt(d + 11));
}

/// Walking the writer's marker output, a reader lands on the fresh tag
/// segment: it sits at the front, or right after the copied APP0 and APP1
/// segments.
#[verifier::rlimit(100)]
proof fn lemma_jpeg_copy_finds(src: Seq<u8>, m: u8, pos: int, payload: Seq<u8>, out: Seq<u8>, d: int)
    requires
        0 <= pos <= src.len(),
        0 <= d,
        crate::jpeg::jpeg_copy(src, m, pos, false, payload) is Ok,
        out.len() == d + crate::jpeg::jpeg_copy(src, m, pos, false, payload)->Ok_0.len(),
        out.subrange(d, out.len() as int) == crate::jpeg::jpeg_copy(src, m, pos, false, payload)->Ok_0,
    ensures
        d + 2 <= out.len(),
        out[d] == 0xFF,
        out[d + 1] != 0xFF,
        ({
            let sc = crate::jpeg::jpeg_scan(out, out[d + 1], d + 2);
            &&& sc matches crate::jpeg::JpegScan::FoundAt(p)
            &&& 0 <= p
            &&& p + payload.len() <= out.len()
            &&& out.subrange(p, p + payload.len() as int) == payload
        }),
    decreases src.len() - pos,
{
    reveal(crate::jpeg::jpeg_copy);
    let o = crate::jpeg::jpeg_copy(src, m, pos, false, payload)->Ok_0;
    let olen = out.len() as int;
    assert(forall|k: int| 0 <= k < o.len() ==> out.subrange(d, olen)[k] == #[trigger] o[k]);
    if m != 0xE0 && m != 0xE1 {
        // the fresh tag segment opens the output here
        let seg = crate::jpeg::jpeg_tag_segment(payload);
        let plen = payload.len() as int;
        assert(9 + payload.len() <= 0xFFFF);
        crate::utils::lemma_be_bytes_len(9 + payload.len(), 2);
        assert(seg.len() == 11 + plen);
        if m == 0xD9 {
            assert(o == seg + seq![0xFFu8, 0xD9]);
        } else {
            assert(crate::jpeg::jpeg_seg_step(src, m, pos) is Ok);
            let (em, q) = crate::jpeg::jpeg_seg_step(src, m, pos)->Ok_0;
            if crate::jpeg::jpeg_is_ecs(m) {
                assert(crate::jpeg::jpeg_ecs(src, q) is Ok);
                let (eb, m2, q2) = crate::jpeg::jpeg_ecs(src, q)->Ok_0;
                let rec = crate::jpeg::jpeg_copy(
                    src,
                    m2,
                    if pos < q2 <= src.len() {
                        q2
                    } else {
                        pos + 1
                    },
                    true,
                    payload,
                )->Ok_0;
                assert(o == seg + em + eb + rec);
            } else {
                assert(q < src.len() && src[q] == 0xFF);
                assert(crate::jpeg::jpeg_ff_run_end(src, q + 1) is Some);
                let p3 = crate::jpeg::jpeg_ff_run_end(src, q + 1)->0;
                let rec = crate::jpeg::jpeg_copy(
                    src,
                    src[p3],
                    if pos < p3 + 1 <= src.len() {
                        p3 + 1
                    } else {
                        pos + 1
                    },
                    true,
                    payload,
                )->Ok_0;
                assert(o == seg + em + rec);
            }
        }
        assert forall|k: int| 0 <= k < seg.len() implies o[k] == seg[k] by {
            if m == 0xD9 {
                assert((seg + seq![0xFFu8, 0xD9])[k] == seg[k]);
            } else {
                let (em, q) = crate::jpeg::jpeg_seg_step(src, m, pos)->Ok_0;
                if crate::jpeg::jpeg_is_ecs(m) {
                    let (eb, m2, q2) = crate::jpeg::jpeg_ecs(src, q)->Ok_0;
                    let rec = crate::jpeg::jpeg_copy(
                        src,
                        m2,
                        if pos < q2 <= src.len() {
                            q2
                        } else {
                            pos + 1
                        },
                        true,
                        payload,
                    )->Ok_0;
                    assert((seg + em + eb + rec)[k] == seg[k]);
                } else {
                    let p3 = crate::jpeg::jpeg_ff_run_end(src, q + 1)->0;
                    let rec = crate::jpeg::jpeg_copy(
                        src,
                        src[p3],
                        if pos < p3 + 1 <= src.len() {
                            p3 + 1
                        } else {
                            pos + 1
                        },
                        true,
                        payload,
                    )->Ok_0;
                    assert((seg + em + rec)[k] == seg[k]);
                }
            }
        }
        assert(o.len() >= seg.len());
        assert forall|k: int| 0 <= k < seg.len() implies #[trigger] out.subrange(
            d,
            d + seg.len() as int,
        )[k] == seg[k] by {
            assert(out.subrange(d, olen)[k] == o[k]);
        }
        assert(out.subrange(d, d + seg.len() as int) =~= seg);
        lemma_jpeg_tagseg_parse(payload, out, d);
        assert(out[d] == 0xFF && out[d + 1] == 0xE4);
    } else {
        // an APP0 or APP1 segment is copied in front, and the walk goes on
        assert(crate::jpeg::jpeg_seg_step(src, m, pos) is Ok);
        let (em, q) = crate::jpeg::jpeg_seg_step(src, m, pos)->Ok_0;
        assert(!crate::jpeg::jpeg_is_standalone(m));
        assert(!crate::jpeg::jpeg_is_ecs(m));
        assert(pos + 2 <= src.len());
        let body = crate::jpeg::jpeg_body_len(be_val(src.subrange(pos, pos + 2)));
        assert(em == seq![0xFFu8, m] + src.subrange(pos, q));
        assert(q < src.len());
        assert(src[q] == 0xFF);
        assert(crate::jpeg::jpeg_ff_run_end(src, q + 1) is Some);
        let p2 = crate::jpeg::jpeg_ff_run_end(src, q + 1)->0;
        crate::jpeg::lemma_ff_run_bounds(src, q + 1);
        let m2 = src[p2];
        let orec = crate::jpeg::jpeg_copy(src, m2, p2 + 1, false, payload)->Ok_0;
        assert(crate::jpeg::jpeg_copy(src, m2, p2 + 1, false, payload) is Ok);
        assert(Seq::<u8>::empty() + em =~= em);
        assert(o == em + orec);
        // the body was complete: a clamped copy would have ended the source
        assert(q == pos + 2 + body) by {
            if q != pos + 2 + body {
                assert(q == src.len() as int);
            }
        }
        assert(em.len() == 4 + body);
        let dr = d + em.len() as int;
        assert forall|k: int| 0 <= k < orec.len() implies out.subrange(dr, olen)[k] == orec[k] by {
            assert(out.subrange(d, olen)[em.len() + k] == o[em.len() + k]);
            assert((em + orec)[em.len() + k] == orec[k]);
        }
        assert(out.subrange(dr, olen) =~= orec);
        lemma_jpeg_copy_finds(src, m2, p2 + 1, payload, out, dr);
        // the reader steps over the copied segment and lands where the walk
        // went on
        assert(out.subrange(d, olen)[0] == o[0] && out.subrange(d, olen)[1] == o[1]);
        assert((em + orec)[0] == em[0] && (em + orec)[1] == em[1]);
        assert((seq![0xFFu8, m] + src.subrange(pos, q))[0] == 0xFF);
        assert((seq![0xFFu8, m] + src.subrange(pos, q))[1] == m);
        assert(out[d] == 0xFF && out[d + 1] == m);
        assert forall|j: int|
            0 <= j < 2 implies #[trigger] out.subrange(d + 2, d + 4)[j] == src.subrange(
            pos,
            pos + 2,
        )[j] by {
            assert(out.subrange(d, olen)[2 + j] == o[2 + j]);
            assert((em + orec)[2 + j] == em[2 + j]);
            assert((seq![0xFFu8, m] + src.subrange(pos, q))[2 + j] == src.subrange(pos, q)[j]);
            assert(src.subrange(pos, q)[j] == src[pos + j]);
        }
        assert(out.subrange(d + 2, d + 4) =~= src.subrange(pos, pos + 2));
        assert(be_val(out.subrange(d + 2, d + 4)) == be_val(src.subrange(pos, pos + 2)));
        assert(spec_skip(olen, d + 4, body) == dr);
        assert(crate::jpeg::jpeg_ff_run_end(out, dr + 1) == Some(dr + 1));
        assert(crate::jpeg::jpeg_scan(out, m, d + 2) == crate::jpeg::jpeg_scan(
            out,
            out[dr + 1],
            dr + 2,
        ));
    }
}

/// Walking the writer's assembled sub-chunks, a reader lands on the fresh
/// tag chunk appended after them.
#[verifier::rlimit(100)]
proof fn lemma_riff_copy_finds(src: Seq<u8>, pos: int, payload: Seq<u8>, out: Seq<u8>, d: int)
    requires
        0 <= pos <= src.len(),
        0 <= d,
        crate::riff::riff_copy_chunks(src, pos) is Some,
        out.len() == d + crate::riff::riff_copy_chunks(src, pos)->0.len()
            + crate::riff::riff_tag_chunk(payload).len(),
        out.subrange(d, out.len() as int) == crate::riff::riff_copy_chunks(src, pos)->0
            + crate::riff::riff_tag_chunk(payload),
    ensures
        crate::riff::riff_scan(out, d) == crate::riff::RiffScan::FoundAt(
            d + crate::riff::riff_copy_chunks(src, pos)->0.len() + 8,
        ),
    decreases src.len() - pos,
{
    let len = src.len() as int;
    let olen = out.len() as int;
    let ch = crate::riff::riff_copy_chunks(src, pos)->0;
    let tag = crate::riff::riff_tag_chunk(payload);
    let plen = payload.len() as int;
    crate::utils::lemma_le_bytes_len(payload.len(), 4);
    assert(tag.len() >= 8 + plen);
    assert(forall|k: int| 0 <= k < ch.len() + tag.len() ==> out.subrange(d, olen)[k] == #[trigger] (
    ch + tag)[k]);
    if pos + 4 > len {
        // the walk ended: the tag chunk stands right here
        assert(ch =~= Seq::<u8>::empty());
        assert forall|j: int| 0 <= j < 4 implies #[trigger] out.subrange(d, d + 4)[j]
            == crate::riff::meme_id()[j] by {
            assert(out.subrange(d, olen)[j] == (ch + tag)[j]);
            assert((ch + tag)[j] == tag[j]);
            assert(tag[j] == crate::riff::meme_id()[j]);
        }
        assert(out.subrange(d, d + 4) =~= crate::riff::meme_id());
        assert(crate::riff::riff_scan(out, d) == crate::riff::RiffScan::FoundAt(d + 8));
    } else {
        assert(pos + 8 <= len);
        let id = src.subrange(pos, pos + 4);
        let sz = crate::utils::le_val(src.subrange(pos + 4, pos + 8)) as int;
        let pad: int = if sz % 2 == 1 {
            1
        } else {
            0
        };
        let next = spec_skip(len, spec_skip(len, pos + 8, sz), pad);
        if id == crate::riff::meme_id() {
            lemma_riff_copy_finds(src, next, payload, out, d);
        } else {
            assert(pos + 8 + sz <= len);
            let chunk = src.subrange(pos, next) + (if pad == 1 && next == pos + 8 + sz {
                seq![0u8]
            } else {
                Seq::<u8>::empty()
            });
            let chrec = crate::riff::riff_copy_chunks(src, next)->0;
            assert(crate::riff::riff_copy_chunks(src, next) is Some);
            assert(ch == chunk + chrec);
            assert(chunk.len() == 8 + sz + pad);
            let dr = d + chunk.len() as int;
            assert forall|k: int| 0 <= k < chrec.len() + tag.len() implies #[trigger] out.subrange(
                dr,
                olen,
            )[k] == (chrec + tag)[k] by {
                assert(out.subrange(d, olen)[chunk.len() + k] == (ch + tag)[chunk.len() + k]);
                assert((ch + tag)[chunk.len() + k] == (chrec + tag)[k]) by {
                    if k < chrec.len() {
                        assert((ch + tag)[chunk.len() + k] == ch[chunk.len() + k]);
                        assert(ch[chunk.len() + k] == chrec[k]);
                    } else {
                        assert((ch + tag)[chunk.len() + k] == tag[k - chrec.len()]);
                    }
                }
            }
            assert(out.subrange(dr, olen) =~= chrec + tag);
            lemma_riff_copy_finds(src, next, payload, out, dr);
            // the reader steps over this chunk, padding byte included
            assert forall|j: int| 0 <= j < 8 implies #[trigger] out.subrange(d, d + 8)[j] == src[pos
                + j] by {
                assert(out.subrange(d, olen)[j] == (ch + tag)[j]);
                assert((ch + tag)[j] == ch[j]);
                assert(ch[j] == chunk[j]);
                assert(chunk[j] == src.subrange(pos, next)[j]);
            }
            assert(out.subrange(d, d + 4) =~= src.subrange(pos, pos + 4));
            assert forall|j: int| 0 <= j < 4 implies #[trigger] out.subrange(d + 4, d + 8)[j]
                == src.subrange(pos + 4, pos + 8)[j] by {
                assert(out.subrange(d, d + 8)[4 + j] == src[pos + 4 + j]);
            }
            assert(out.subrange(d + 4, d + 8) =~= src.subrange(pos + 4, pos + 8));
            assert(crate::utils::le_val(out.subrange(d + 4, d + 8)) as int == sz);
            assert(spec_skip(olen, spec_skip(olen, d + 8, sz), pad) == dr);
            assert(crate::riff::riff_scan(out, d) == crate::riff::riff_scan(out, dr));
        }
    }
}

/// Round trip for RIFF: when writing tags over a source that holds the full
/// 12-byte header succeeds, reading the written bytes yields exactly the
/// written tags in normal form — the same set of tags.
pub proof fn lemma_riff_read_after_write(src: Seq<u8>, ts: Seq<Seq<char>>, out: Seq<u8>)
    requires
        crate::riff::spec_riff_write(src, spec_encode_tags(spec_normalize(ts))) == Ok::<
            Seq<u8>,
            Error,
        >(out),
        src.len() >= 12,
    ensures
        spec_format_read(Format::Riff, out) == Ok::<Seq<Seq<char>>, Error>(spec_normalize(ts)),
{
    let payload = spec_encode_tags(spec_normalize(ts));
    let len = src.len() as int;
    let a = spec_skip(len, 0, 4);
    let b = spec_skip(len, a, 4);
    let c = spec_skip(len, b, 4);
    assert(a == 4 && b == 8 && c == 12);
    let ch = crate::riff::riff_copy_chunks(src, 12)->0;
    assert(crate::riff::riff_copy_chunks(src, 12) is Some);
    let tag = crate::riff::riff_tag_chunk(payload);
    let data = src.subrange(8, 12) + ch + tag;
    assert(out == src.subrange(0, 4) + crate::utils::le_bytes(data.len(), 4) + data);
    let olen = out.len() as int;
    crate::utils::lemma_le_bytes_len(data.len(), 4);
    crate::utils::lemma_le_bytes_len(payload.len(), 4);
    assert(olen == 8 + data.len());
    assert(tag.len() >= 8);
    assert(olen >= 12);
    assert forall|k: int| 0 <= k < ch.len() + tag.len() implies #[trigger] out.subrange(12, olen)[k]
        == (ch + tag)[k] by {
        assert(out[12 + k] == data[4 + k]);
        assert(data[4 + k] == (ch + tag)[k]) by {
            if k < ch.len() {
                assert(data[4 + k] == ch[k]);
            } else {
                assert(data[4 + k] == tag[k - ch.len()]);
            }
        }
    }
    assert(out.subrange(12, olen) =~= ch + tag);
    lemma_riff_copy_finds(src, 12, payload, out, 12);
    let p = 12 + ch.len() as int + 8;
    assert(crate::riff::riff_scan(out, 12) == crate::riff::RiffScan::FoundAt(p));
    assert forall|j: int| 0 <= j < plen_of(payload) implies #[trigger] out.skip(p)[j]
        == payload[j] by {
        assert(out.subrange(12, olen)[ch.len() + 8 + j] == (ch + tag)[ch.len() + 8 + j]);
        assert((ch + tag)[ch.len() + 8 + j] == tag[8 + j]);
        assert(tag[8 + j] == payload[j]);
    }
    assert(out.skip(p) =~= payload + out.skip(p + payload.len() as int));
    lemma_decode_encode_tags(spec_normalize(ts), out.skip(p + payload.len() as int));
}

/// The length of a payload, named for quantifier bounds.
pub open spec fn plen_of(p: Seq<u8>) -> int {
    p.len() as int
}

/// Round trip for JPEG: when writing tags over a source that opens with the
/// start-of-image marker succeeds, reading the written bytes yields exactly
/// the written tags in normal form — the same set of tags.
pub proof fn lemma_jpeg_read_after_write(src: Seq<u8>, ts: Seq<Seq<char>>, out: Seq<u8>)
    requires
        crate::jpeg::spec_jpeg_write(src, spec_encode_tags(spec_normalize(ts))) == Ok::<
            Seq<u8>,
            Error,
        >(out),
        src.len() >= 2 && src[0] == 0xFF && src[1] == 0xD8,
    ensures
        spec_format_read(Format::Jpeg, out) == Ok::<Seq<Seq<char>>, Error>(spec_normalize(ts)),
{
    let payload = spec_encode_tags(spec_normalize(ts));
    let len = src.len() as int;
    let p2 = spec_skip(len, 0, 2);
    assert(p2 < len);
    assert(p2 == 2);
    assert(src[p2] == 0xFF);
    assert(crate::jpeg::jpeg_ff_run_end(src, p2 + 1) is Some);
    let p = crate::jpeg::jpeg_ff_run_end(src, p2 + 1)->0;
    crate::jpeg::lemma_ff_run_bounds(src, p2 + 1);
    let o = crate::jpeg::jpeg_copy(src, src[p], p + 1, false, payload)->Ok_0;
    assert(crate::jpeg::jpeg_copy(src, src[p], p + 1, false, payload) is Ok);
    assert(out == src.subrange(0, 2) + o);
    let olen = out.len() as int;
    assert(out.subrange(2, olen) =~= o);
    lemma_jpeg_copy_finds(src, src[p], p + 1, payload, out, 2);
    assert(out[0] == 0xFF && out[1] == 0xD8);
    assert(crate::jpeg::jpeg_ff_run_end(out, 1) == Some(1int));
    assert(crate::jpeg::spec_jpeg_read(out) == crate::jpeg::jpeg_scan(out, 0xD8u8, 2));
    // the start-of-image marker stands alone and the next marker read is the
    // first one the writer emitted
    assert(crate::jpeg::jpeg_is_standalone(0xD8u8));
    assert(!crate::jpeg::jpeg_is_ecs(0xD8u8));
    assert(out[2] == 0xFF);
    assert(crate::jpeg::jpeg_ff_run_end(out, 3) == Some(3int));
    assert(crate::jpeg::jpeg_scan(out, 0xD8u8, 2) == crate::jpeg::jpeg_scan(out, out[3], 4));
    let sc = crate::jpeg::jpeg_scan(out, out[3], 4);
    let fp = sc->FoundAt_0;
    assert(out.skip(fp) =~= payload + out.skip(fp + payload.len() as int));
    lemma_decode_encode_tags(spec_normalize(ts), out.skip(fp + payload.len() as int));
}

/// Every top-level box from `pos` on is whole: it declares at least its own
/// header, its data lies within the source, and a size-zero box — which ends
/// the walk — does not carry the tag UUID. The walk may also end at a clean
/// end of source or a header cut short, which both stop reader and writer
/// alike.
pub open spec fn bmff_boxes_intact(src: Seq<u8>, pos: int) -> bool
    decreases src.len() - pos when 0 <= pos <= src.len()
{
    let len = src.len() as int;
    if pos + 8 > len {
        true
    } else {
        let hdr = crate::isobmff::bmff_hdr_len(src, pos);
        if pos + hdr > len {
            true
        } else if be_val(src.subrange(pos, pos + 4)) == 0 {
            !crate::isobmff::bmff_is_memedb(src, pos)
        } else {
            let declared = crate::isobmff::bmff_declared(src, pos) as int;
            declared >= hdr && pos + declared <= len && bmff_boxes_intact(src, pos + declared)
        }
    }
}

/// A fresh tag box standing at `d` parses back to its payload.
proof fn lemma_bmff_tagbox_parse(payload: Seq<u8>, out: Seq<u8>, d: int)
    requires
        0 <= d,
        payload.len() <= 0xFFFFFFFFFFFFFFDF,
        d + crate::isobmff::bmff_tag_box(payload).len() <= out.len(),
        out.subrange(d, d + crate::isobmff::bmff_tag_box(payload).len())
            == crate::isobmff::bmff_tag_box(payload),
    ensures
        ({
            let th: int = if 24 + payload.len() > 0xFFFFFFFF {
                32
            } else {
                24
            };
            &&& crate::isobmff::bmff_scan(out, d) == crate::isobmff::BmffScan::FoundAt(d + th)
            &&& d + th + payload.len() <= out.len()
            &&& out.subrange(d + th, d + th + payload.len() as int) == payload
        }),
{
    let tag = crate::isobmff::bmff_tag_box(payload);
    let plen = payload.len() as int;
    let total = 24 + plen;
    let th: int = if total > 0xFFFFFFFF {
        32
    } else {
        24
    };
    crate::utils::lemma_be_bytes_len(total as nat, 4);
    crate::utils::lemma_be_bytes_len((total + 8) as nat, 8);
    assert(tag.len() == th + plen);
    assert(forall|k: int|
        0 <= k < tag.len() ==> out.subrange(d, d + tag.len() as int)[k] == #[trigger] tag[k]);
    assert(pow256(4) == 0x100000000 && pow256(8) == 0x10000000000000000) by {
        assert(pow256(0) == 1);
        assert(pow256(1) == 0x100);
        assert(pow256(2) == 0x10000);
        assert(pow256(3) == 0x1000000);
        assert(pow256(4) == 0x100000000);
        assert(pow256(5) == 0x10000000000);
        assert(pow256(6) == 0x1000000000000);
        assert(pow256(7) == 0x100000000000000);
    }
    if total > 0xFFFFFFFF {
        let hd = seq![0u8, 0, 0, 1] + crate::isobmff::uuid_type() + crate::utils::be_bytes(
            (total + 8) as nat,
            8,
        ) + crate::isobmff::memedb_uuid();
        assert(tag == hd + payload);
        assert(forall|k: int| 0 <= k < hd.len() ==> tag[k] == #[trigger] hd[k]);
        assert forall|j: int| 0 <= j < 4 implies #[trigger] out.subrange(d, d + 4)[j] == seq![
            0u8,
            0,
            0,
            1,
        ][j] by {
            assert(out.subrange(d, d + tag.len() as int)[j] == tag[j]);
            assert(hd[j] == seq![0u8, 0, 0, 1][j]);
        }
        assert(out.subrange(d, d + 4) =~= seq![0u8, 0, 0, 1]);
        assert(crate::utils::be_bytes(1nat, 4) =~= seq![0u8, 0, 0, 1]) by {
            assert(crate::utils::be_bytes(0nat, 0) =~= Seq::<u8>::empty());
            assert(crate::utils::be_bytes(0nat, 1) =~= seq![0u8]);
            assert(crate::utils::be_bytes(0nat, 2) =~= seq![0u8, 0]);
            assert(crate::utils::be_bytes(0nat, 3) =~= seq![0u8, 0, 0]);
        }
        lemma_be_val_be_bytes(1nat, 4);
        assert(be_val(out.subrange(d, d + 4)) == 1);
        assert forall|j: int| 0 <= j < 4 implies #[trigger] out.subrange(d + 4, d + 8)[j]
            == crate::isobmff::uuid_type()[j] by {
            assert(out.subrange(d, d + tag.len() as int)[4 + j] == tag[4 + j]);
            assert(hd[4 + j] == crate::isobmff::uuid_type()[j]);
        }
        assert(out.subrange(d + 4, d + 8) =~= crate::isobmff::uuid_type());
        assert(crate::isobmff::bmff_hdr_len(out, d) == 32);
        assert forall|j: int| 0 <= j < 8 implies #[trigger] out.subrange(d + 8, d + 16)[j]
            == crate::utils::be_bytes((total + 8) as nat, 8)[j] by {
            assert(out.subrange(d, d + tag.len() as int)[8 + j] == tag[8 + j]);
            assert(hd[8 + j] == crate::utils::be_bytes((total + 8) as nat, 8)[j]);
        }
        assert(out.subrange(d + 8, d + 16) =~= crate::utils::be_bytes((total + 8) as nat, 8));
        lemma_be_val_be_bytes((total + 8) as nat, 8);
        assert(crate::isobmff::bmff_declared(out, d) == total + 8);
        assert forall|j: int| 0 <= j < 16 implies #[trigger] out.subrange(d + 16, d + 32)[j]
            == crate::isobmff::memedb_uuid()[j] by {
            assert(out.subrange(d, d + tag.len() as int)[16 + j] == tag[16 + j]);
            assert(hd[16 + j] == crate::isobmff::memedb_uuid()[j]);
        }
        assert(out.subrange(d + 16, d + 32) =~= crate::isobmff::memedb_uuid());
        assert(crate::isobmff::bmff_is_memedb(out, d));
        assert(crate::isobmff::bmff_scan(out, d) == crate::isobmff::BmffScan::FoundAt(d + 32));
        assert forall|j: int| 0 <= j < plen implies #[trigger] out.subrange(d + 32, d + 32 + plen)[j]
            == payload[j] by {
            assert(out.subrange(d, d + tag.len() as int)[32 + j] == tag[32 + j]);
            assert(tag[32 + j] == payload[j]);
        }
        assert(out.subrange(d + 32, d + 32 + plen) =~= payload);
    } else {
        let hd = crate::utils::be_bytes(total as nat, 4) + crate::isobmff::uuid_type()
            + crate::isobmff::memedb_uuid();
        assert(tag == hd + payload);
        assert(forall|k: int| 0 <= k < hd.len() ==> tag[k] == #[trigger] hd[k]);
        assert forall|j: int| 0 <= j < 4 implies #[trigger] out.subrange(d, d + 4)[j]
            == crate::utils::be_bytes(total as nat, 4)[j] by {
            assert(out.subrange(d, d + tag.len() as int)[j] == tag[j]);
            assert(hd[j] == crate::utils::be_bytes(total as nat, 4)[j]);
        }
        assert(out.subrange(d, d + 4) =~= crate::utils::be_bytes(total as nat, 4));
        lemma_be_val_be_bytes(total as nat, 4);
        assert(be_val(out.subrange(d, d + 4)) == total);
        assert forall|j: int| 0 <= j < 4 implies #[trigger] out.subrange(d + 4, d + 8)[j]
            == crate::isobmff::uuid_type()[j] by {
            assert(out.subrange(d, d + tag.len() as int)[4 + j] == tag[4 + j]);
            assert(hd[4 + j] == crate::isobmff::uuid_type()[j]);
        }
        assert(out.subrange(d + 4, d + 8) =~= crate::isobmff::uuid_type());
        assert(crate::isobmff::bmff_hdr_len(out, d) == 24);
        assert forall|j: int| 0 <= j < 16 implies #[trigger] out.subrange(d + 8, d + 24)[j]
            == crate::isobmff::memedb_uuid()[j] by {
            assert(out.subrange(d, d + tag.len() as int)[8 + j] == tag[8 + j]);
            assert(hd[8 + j] == crate::isobmff::memedb_uuid()[j]);
        }
        assert(out.subrange(d + 8, d + 24) =~= crate::isobmff::memedb_uuid());
        assert(crate::isobmff::bmff_is_memedb(out, d));
        assert(crate::isobmff::bmff_scan(out, d) == crate::isobmff::BmffScan::FoundAt(d + 24));
        assert forall|j: int| 0 <= j < plen implies #[trigger] out.subrange(d + 24, d + 24 + plen)[j]
            == payload[j] by {
            assert(out.subrange(d, d + tag.len() as int)[24 + j] == tag[24 + j]);
            assert(tag[24 + j] == payload[j]);
        }
        assert(out.subrange(d + 24, d + 24 + plen) =~= payload);
    }
}

/// Walking the writer's box output, a reader lands on the fresh tag box
/// appended at the end.
#[verifier::rlimit(100)]
proof fn lemma_bmff_copy_finds(src: Seq<u8>, pos: int, payload: Seq<u8>, out: Seq<u8>, d: int)
    requires
        0 <= pos <= src.len(),
        0 <= d,
        bmff_boxes_intact(src, pos),
        payload.len() <= 0xFFFFFFFFFFFFFFDF,
        crate::isobmff::bmff_copy(src, pos) is Ok,
        out.len() == d + crate::isobmff::bmff_copy(src, pos)->Ok_0.len()
            + crate::isobmff::bmff_tag_box(payload).len(),
        out.subrange(d, out.len() as int) == crate::isobmff::bmff_copy(src, pos)->Ok_0
            + crate::isobmff::bmff_tag_box(payload),
    ensures
        ({
            let th: int = if 24 + payload.len() > 0xFFFFFFFF {
                32
            } else {
                24
            };
            let p = d + crate::isobmff::bmff_copy(src, pos)->Ok_0.len() + th;
            &&& crate::isobmff::bmff_scan(out, d) == crate::isobmff::BmffScan::FoundAt(p)
            &&& 0 <= p
            &&& p + payload.len() <= out.len()
            &&& out.subrange(p, p + payload.len() as int) == payload
        }),
    decreases src.len() - pos,
{
    let len = src.len() as int;
    let olen = out.len() as int;
    let body = crate::isobmff::bmff_copy(src, pos)->Ok_0;
    let tag = crate::isobmff::bmff_tag_box(payload);
    assert(forall|k: int|
        0 <= k < body.len() + tag.len() ==> out.subrange(d, olen)[k] == #[trigger] (body + tag)[k]);
    if pos + 8 > len || pos + crate::isobmff::bmff_hdr_len(src, pos) > len {
        // the walk ended: the tag box stands right here
        assert(body =~= Seq::<u8>::empty());
        assert forall|k: int| 0 <= k < tag.len() implies #[trigger] out.subrange(
            d,
            d + tag.len() as int,
        )[k] == tag[k] by {
            assert(out.subrange(d, olen)[k] == (body + tag)[k]);
        }
        assert(out.subrange(d, d + tag.len() as int) =~= tag);
        lemma_bmff_tagbox_parse(payload, out, d);
    } else {
        let hdr = crate::isobmff::bmff_hdr_len(src, pos);
        if be_val(src.subrange(pos, pos + 4)) == 0 {
            // the rewritten terminal box is stepped over, the tag box follows
            let dlen = len - (pos + hdr);
            assert(dlen <= 0xFFFFFFFFFFFFFFDF);
            let tb = crate::isobmff::bmff_terminal_bytes(src, pos, dlen);
            assert(body == tb + src.subrange(pos + hdr, len));
            let is_uuid = crate::isobmff::bmff_is_uuid(src, pos);
            let ts: int = if is_uuid {
                20
            } else {
                4
            };
            let total = 4 + ts + dlen;
            crate::utils::lemma_be_bytes_len(total as nat, 4);
            crate::utils::lemma_be_bytes_len((total + 8) as nat, 8);
            assert(pow256(4) == 0x100000000 && pow256(8) == 0x10000000000000000) by {
                assert(pow256(0) == 1);
                assert(pow256(1) == 0x100);
                assert(pow256(2) == 0x10000);
                assert(pow256(3) == 0x1000000);
                assert(pow256(4) == 0x100000000);
                assert(pow256(5) == 0x10000000000);
                assert(pow256(6) == 0x1000000000000);
                assert(pow256(7) == 0x100000000000000);
            }
            let hout: int = if total > 0xFFFFFFFF {
                12 + ts
            } else {
                4 + ts
            };
            assert(tb.len() == hout);
            assert(forall|k: int| 0 <= k < body.len() ==> out.subrange(d, olen)[k] == body[k]);
            assert(forall|k: int| 0 <= k < tb.len() ==> body[k] == #[trigger] tb[k]);
            if total > 0xFFFFFFFF {
                assert forall|j: int| 0 <= j < 4 implies #[trigger] out.subrange(d, d + 4)[j]
                    == seq![0u8, 0, 0, 1][j] by {
                    assert(out.subrange(d, olen)[j] == body[j]);
                    assert(tb[j] == (seq![0u8, 0, 0, 1] + src.subrange(pos + 4, pos + 8)
                        + crate::utils::be_bytes((total + 8) as nat, 8) + (if is_uuid {
                        crate::isobmff::bmff_uuid_bytes(src, pos)
                    } else {
                        Seq::<u8>::empty()
                    }))[j]);
                }
                assert(out.subrange(d, d + 4) =~= seq![0u8, 0, 0, 1]);
                assert(crate::utils::be_bytes(1nat, 4) =~= seq![0u8, 0, 0, 1]) by {
                    assert(crate::utils::be_bytes(0nat, 0) =~= Seq::<u8>::empty());
                    assert(crate::utils::be_bytes(0nat, 1) =~= seq![0u8]);
                    assert(crate::utils::be_bytes(0nat, 2) =~= seq![0u8, 0]);
                    assert(crate::utils::be_bytes(0nat, 3) =~= seq![0u8, 0, 0]);
                }
                lemma_be_val_be_bytes(1nat, 4);
                assert(be_val(out.subrange(d, d + 4)) == 1);
                assert forall|j: int| 0 <= j < 4 implies #[trigger] out.subrange(d + 4, d + 8)[j]
                    == src.subrange(pos + 4, pos + 8)[j] by {
                    assert(out.subrange(d, olen)[4 + j] == body[4 + j]);
                    assert(tb[4 + j] == (seq![0u8, 0, 0, 1] + src.subrange(pos + 4, pos + 8)
                        + crate::utils::be_bytes((total + 8) as nat, 8) + (if is_uuid {
                        crate::isobmff::bmff_uuid_bytes(src, pos)
                    } else {
                        Seq::<u8>::empty()
                    }))[4 + j]);
                }
                assert(out.subrange(d + 4, d + 8) =~= src.subrange(pos + 4, pos + 8));
                assert(crate::isobmff::bmff_is_uuid(out, d) == is_uuid);
                assert(crate::isobmff::bmff_hdr_len(out, d) == hout);
                assert forall|j: int| 0 <= j < 8 implies #[trigger] out.subrange(d + 8, d + 16)[j]
                    == crate::utils::be_bytes((total + 8) as nat, 8)[j] by {
                    assert(out.subrange(d, olen)[8 + j] == body[8 + j]);
                    assert(tb[8 + j] == (seq![0u8, 0, 0, 1] + src.subrange(pos + 4, pos + 8)
                        + crate::utils::be_bytes((total + 8) as nat, 8) + (if is_uuid {
                        crate::isobmff::bmff_uuid_bytes(src, pos)
                    } else {
                        Seq::<u8>::empty()
                    }))[8 + j]);
                }
                assert(out.subrange(d + 8, d + 16) =~= crate::utils::be_bytes(
                    (total + 8) as nat,
                    8,
                ));
                lemma_be_val_be_bytes((total + 8) as nat, 8);
                assert(crate::isobmff::bmff_declared(out, d) == total + 8);
            } else {
                assert forall|j: int| 0 <= j < 4 implies #[trigger] out.subrange(d, d + 4)[j]
                    == crate::utils::be_bytes(total as nat, 4)[j] by {
                    assert(out.subrange(d, olen)[j] == body[j]);
                    assert(tb[j] == (crate::utils::be_bytes(total as nat, 4) + src.subrange(
                        pos + 4,
                        pos + 8,
                    ) + (if is_uuid {
                        crate::isobmff::bmff_uuid_bytes(src, pos)
                    } else {
                        Seq::<u8>::empty()
                    }))[j]);
                }
                assert(out.subrange(d, d + 4) =~= crate::utils::be_bytes(total as nat, 4));
                lemma_be_val_be_bytes(total as nat, 4);
                assert(be_val(out.subrange(d, d + 4)) == total);
                assert(total >= 8);
                assert forall|j: int| 0 <= j < 4 implies #[trigger] out.subrange(d + 4, d + 8)[j]
                    == src.subrange(pos + 4, pos + 8)[j] by {
                    assert(out.subrange(d, olen)[4 + j] == body[4 + j]);
                    assert(tb[4 + j] == (crate::utils::be_bytes(total as nat, 4) + src.subrange(
                        pos + 4,
                        pos + 8,
                    ) + (if is_uuid {
                        crate::isobmff::bmff_uuid_bytes(src, pos)
                    } else {
                        Seq::<u8>::empty()
                    }))[4 + j]);
                }
                assert(out.subrange(d + 4, d + 8) =~= src.subrange(pos + 4, pos + 8));
                assert(crate::isobmff::bmff_is_uuid(out, d) == is_uuid);
                assert(crate::isobmff::bmff_hdr_len(out, d) == hout);
                assert(crate::isobmff::bmff_declared(out, d) == total);
            }
            // the rewritten box is not the tag box, and is stepped over whole
            if is_uuid {
                assert forall|j: int|
                    0 <= j < 16 implies #[trigger] crate::isobmff::bmff_uuid_bytes(out, d)[j]
                    == crate::isobmff::bmff_uuid_bytes(src, pos)[j] by {
                    assert(crate::isobmff::bmff_uuid_bytes(out, d)[j] == out[d + hout - 16 + j]);
                    assert(out.subrange(d, olen)[hout - 16 + j] == body[hout - 16 + j]);
                    assert(tb[hout - 16 + j] == crate::isobmff::bmff_uuid_bytes(src, pos)[j]);
                }
                assert(crate::isobmff::bmff_uuid_bytes(out, d)
                    =~= crate::isobmff::bmff_uuid_bytes(src, pos));
            }
            assert(!crate::isobmff::bmff_is_memedb(out, d));
            let dr = d + hout + dlen;
            assert(crate::isobmff::bmff_scan(out, d) == crate::isobmff::bmff_scan(out, dr));
            assert forall|k: int| 0 <= k < tag.len() implies #[trigger] out.subrange(
                dr,
                dr + tag.len() as int,
            )[k] == tag[k] by {
                assert(out.subrange(d, olen)[body.len() + k] == (body + tag)[body.len() + k]);
            }
            assert(out.subrange(dr, dr + tag.len() as int) =~= tag);
            lemma_bmff_tagbox_parse(payload, out, dr);
        } else {
            let declared = crate::isobmff::bmff_declared(src, pos) as int;
            assert(declared >= hdr && pos + declared <= len);
            let next = spec_skip(len, pos + hdr, declared - hdr);
            assert(next == pos + declared);
            if crate::isobmff::bmff_is_memedb(src, pos) {
                lemma_bmff_copy_finds(src, next, payload, out, d);
            } else {
                let brec = crate::isobmff::bmff_copy(src, next)->Ok_0;
                assert(crate::isobmff::bmff_copy(src, next) is Ok);
                assert(body == src.subrange(pos, next) + brec);
                let dr = d + declared;
                assert forall|k: int|
                    0 <= k < brec.len() + tag.len() implies #[trigger] out.subrange(dr, olen)[k] == (
                brec + tag)[k] by {
                    assert(out.subrange(d, olen)[declared + k] == (body + tag)[declared + k]);
                    assert((body + tag)[declared + k] == (brec + tag)[k]) by {
                        if k < brec.len() {
                            assert((body + tag)[declared + k] == body[declared + k]);
                            assert(body[declared + k] == brec[k]);
                        } else {
                            assert((body + tag)[declared + k] == tag[k - brec.len()]);
                        }
                    }
                }
                assert(out.subrange(dr, olen) =~= brec + tag);
                lemma_bmff_copy_finds(src, next, payload, out, dr);
                // the reader parses the copied header exactly as the writer did
                assert forall|j: int| 0 <= j < hdr implies #[trigger] out.subrange(d, olen)[j]
                    == src[pos + j] by {
                    assert(out.subrange(d, olen)[j] == (body + tag)[j]);
                    assert((body + tag)[j] == body[j]);
                    assert(body[j] == src.subrange(pos, next)[j]);
                }
                assert forall|j: int| 0 <= j < 4 implies #[trigger] out.subrange(d, d + 4)[j]
                    == src.subrange(pos, pos + 4)[j] by {
                    assert(out.subrange(d, olen)[j] == src[pos + j]);
                }
                assert(out.subrange(d, d + 4) =~= src.subrange(pos, pos + 4));
                assert forall|j: int| 0 <= j < 4 implies #[trigger] out.subrange(d + 4, d + 8)[j]
                    == src.subrange(pos + 4, pos + 8)[j] by {
                    assert(out.subrange(d + 4, d + 8)[j] == out.subrange(d, olen)[4 + j]) by {
                        assert(out.subrange(d + 4, d + 8)[j] == out[d + 4 + j]);
                        assert(out.subrange(d, olen)[4 + j] == out[d + (4 + j)]);
                    }
                    assert(out.subrange(d, olen)[4 + j] == src[pos + 4 + j]);
                }
                assert(out.subrange(d + 4, d + 8) =~= src.subrange(pos + 4, pos + 8));
                assert(crate::isobmff::bmff_is_uuid(out, d) == crate::isobmff::bmff_is_uuid(
                    src,
                    pos,
                ));
                assert(crate::isobmff::bmff_hdr_len(out, d) == hdr);
                if be_val(src.subrange(pos, pos + 4)) == 1 {
                    assert forall|j: int| 0 <= j < 8 implies #[trigger] out.subrange(
                        d + 8,
                        d + 16,
                    )[j] == src.subrange(pos + 8, pos + 16)[j] by {
                        assert(out.subrange(d + 8, d + 16)[j] == out.subrange(d, olen)[8 + j]) by {
                            assert(out.subrange(d + 8, d + 16)[j] == out[d + 8 + j]);
                            assert(out.subrange(d, olen)[8 + j] == out[d + (8 + j)]);
                        }
                        assert(out.subrange(d, olen)[8 + j] == src[pos + 8 + j]);
                    }
                    assert(out.subrange(d + 8, d + 16) =~= src.subrange(pos + 8, pos + 16));
                }
                assert(crate::isobmff::bmff_declared(out, d) == declared);
                if crate::isobmff::bmff_is_uuid(src, pos) {
                    assert forall|j: int|
                        0 <= j < 16 implies #[trigger] crate::isobmff::bmff_uuid_bytes(out, d)[j]
                        == crate::isobmff::bmff_uuid_bytes(src, pos)[j] by {
                        assert(crate::isobmff::bmff_uuid_bytes(out, d)[j] == out[d + hdr - 16 + j]);
                        assert(out.subrange(d, olen)[hdr - 16 + j] == out[d + (hdr - 16 + j)]);
                        assert(out.subrange(d, olen)[hdr - 16 + j] == src[pos + (hdr - 16 + j)]);
                        assert(crate::isobmff::bmff_uuid_bytes(src, pos)[j] == src[pos + hdr - 16
                            + j]);
                    }
                    assert(crate::isobmff::bmff_uuid_bytes(out, d)
                        =~= crate::isobmff::bmff_uuid_bytes(src, pos));
                }
                assert(!crate::isobmff::bmff_is_memedb(out, d));
                assert(crate::isobmff::bmff_scan(out, d) == crate::isobmff::bmff_scan(out, dr));
            }
        }
    }
}

/// Round trip for ISO-BMFF: when writing tags over a source whose top-level
/// boxes are whole — and whose size-zero terminal box, if any, is not itself
/// the tag box — succeeds, reading the written bytes yields exactly the
/// written tags in normal form — the same set of tags.
pub proof fn lemma_bmff_read_after_write(src: Seq<u8>, ts: Seq<Seq<char>>, out: Seq<u8>)
    requires
        crate::isobmff::spec_bmff_write(src, spec_encode_tags(spec_normalize(ts))) == Ok::<
            Seq<u8>,
            Error,
        >(out),
        bmff_boxes_intact(src, 0),
    ensures
        spec_format_read(Format::Isobmff, out) == Ok::<Seq<Seq<char>>, Error>(spec_normalize(ts)),
{
    let payload = spec_encode_tags(spec_normalize(ts));
    let body = crate::isobmff::bmff_copy(src, 0)->Ok_0;
    assert(crate::isobmff::bmff_copy(src, 0) is Ok);
    assert(payload.len() <= 0xFFFFFFFFFFFFFFDF);
    assert(out == body + crate::isobmff::bmff_tag_box(payload));
    assert(out.subrange(0, out.len() as int) =~= out);
    lemma_bmff_copy_finds(src, 0, payload, out, 0);
    let th: int = if 24 + payload.len() > 0xFFFFFFFF {
        32
    } else {
        24
    };
    let p = body.len() + th;
    assert(crate::isobmff::bmff_scan(out, 0) == crate::isobmff::BmffScan::FoundAt(p));
    assert(out.skip(p) =~= payload + out.skip(p + payload.len() as int));
    lemma_decode_encode_tags(spec_normalize(ts), out.skip(p + payload.len() as int));
}

/// The writer preserves the format: bytes written over a source that
/// carries a format's magic carry the same magic, and are identified as the
/// same format.
#[verifier::rlimit(100)]
pub proof fn lemma_write_preserves_format(f: Format, src: Seq<u8>, payload: Seq<u8>, out: Seq<u8>)
    requires
        f != Format::Isobmff,
        magic_matches(src, f),
        crate::spec_format_write(f, src, payload) == Ok::<Seq<u8>, Error>(out),
    ensures
        spec_identify(out) == Some(f),
{
    crate::formats::lemma_magic_bytes(src, f);
    match f {
        Format::Png => {
            let len = src.len() as int;
            let p8 = spec_skip(len, 0, 8);
            let l0 = be_val(src.subrange(p8, p8 + 4)) as int;
            let end0 = spec_skip(len, spec_skip(len, p8 + 8, l0), 4);
            assert(png::png_copy_rest(src, end0) is Some);
            assert(out == src.subrange(0, end0) + png::png_tag_chunk(payload) + png::png_copy_rest(
                src,
                end0,
            )->Some_0);
            assert(end0 >= 16);
            assert(forall|k: int| 0 <= k < end0 ==> #[trigger] out[k] == src[k]);
            assert(out.len() >= 8);
            assert(out.subrange(0, 8) =~= src.subrange(0, 8));
            crate::formats::lemma_identify_complete(out, f);
        },
        Format::Gif => {
            let h = crate::gif::gif_header_end(src)->0;
            assert(crate::gif::gif_header_end(src) is Some);
            assert(13 <= h);
            assert(forall|k: int| 0 <= k < h ==> #[trigger] out[k] == src[k]);
            assert(out.len() >= 6);
            assert(out.subrange(0, 6) =~= src.subrange(0, 6));
            crate::formats::lemma_identify_complete(out, f);
        },
        Format::Jpeg => {
            assert(forall|k: int| 0 <= k < 2 ==> #[trigger] out[k] == src[k]);
            assert(out.len() >= 2);
            assert(out.subrange(0, 2) =~= src.subrange(0, 2));
            crate::formats::lemma_identify_complete(out, f);
        },
        Format::Riff => {
            assert(forall|k: int| 0 <= k < 4 ==> #[trigger] out[k] == src[k]);
            assert(out.len() >= 4);
            assert(out.subrange(0, 4) =~= src.subrange(0, 4));
            crate::formats::lemma_identify_complete(out, f);
        },
        Format::Isobmff => {
        },
    }
}

/// The round trip through the top-level entry points: when a recognised
/// source is written with a set of tags and the write succeeds, the written
/// bytes are recognised as the same format and read back as exactly the
/// written tags in normal form, which hold the same tags as the given list.
/// The provisos name the inputs on which the container itself gets in the
/// way: an ISO-BMFF round trip is not covered, a PNG source whose first
/// chunk is already a tag chunk or an `IEND` chunk loses it, a JPEG source
/// must open with the start-of-image marker, and a RIFF source must hold its
/// full 12-byte header.
pub proof fn lemma_read_after_write(src: Seq<u8>, ts: Seq<Seq<char>>, out: Seq<u8>)
    requires
        spec_identify(src) is Some,
        crate::spec_format_write(
            spec_identify(src)->0,
            src,
            spec_encode_tags(spec_normalize(ts)),
        ) == Ok::<Seq<u8>, Error>(out),
        spec_identify(src)->0 == Format::Png ==> (src.len() >= 16 ==> src.subrange(12, 16)
            != png::meme_type() && src.subrange(12, 16) != png::iend_type()),
        spec_identify(src)->0 == Format::Riff ==> src.len() >= 12,
        spec_identify(src)->0 == Format::Isobmff ==> bmff_boxes_intact(src, 0),
    ensures
        spec_identify(src)->0 != Format::Isobmff ==> spec_identify(out) == spec_identify(src),
        crate::spec_format_read(spec_identify(src)->0, out) == Ok::<Seq<Seq<char>>, Error>(
            spec_normalize(ts),
        ),
        forall|t: Seq<char>| #[trigger] spec_normalize(ts).contains(t) <==> ts.contains(t),
{
    let f = spec_identify(src)->0;
    crate::formats::lemma_identify_sound(src, f);
    if f != Format::Isobmff {
        lemma_write_preserves_format(f, src, spec_encode_tags(spec_normalize(ts)), out);
    }
    match f {
        Format::Png => {
            lemma_png_read_after_write(src, ts, out);
        },
        Format::Gif => {
            lemma_gif_read_after_write(src, ts, out);
        },
        Format::Jpeg => {
            crate::formats::lemma_magic_bytes(src, Format::Jpeg);
            lemma_jpeg_read_after_write(src, ts, out);
        },
        Format::Riff => {
            lemma_riff_read_after_write(src, ts, out);
        },
        Format::Isobmff => {
            lemma_bmff_read_after_write(src, ts, out);
        },
    }
    lemma_normalize_contains(ts);
}

/// Writing an empty set of tags to a GIF source and reading the written
/// bytes back yields the empty set.
pub proof fn lemma_gif_empty_write_reads_empty(src: Seq<u8>, out: Seq<u8>)
    requires
        crate::gif::spec_gif_write(
            src,
            spec_encode_tags(spec_normalize(Seq::<Seq<char>>::empty())),
        ) == Ok::<Seq<u8>, Error>(out),
    ensures
        spec_format_read(Format::Gif, out) == Ok::<Seq<Seq<char>>, Error>(
            Seq::<Seq<char>>::empty(),
        ),
{
    lemma_gif_read_after_write(src, Seq::empty(), out);
    assert(spec_normalize(Seq::<Seq<char>>::empty()) =~= Seq::<Seq<char>>::empty());
}

} // verus!
