//! Reading and writing of user-defined string tags embedded in media
//! container files (GIF, ISO-BMFF, JPEG, PNG, RIFF/WebP).
//!
//! The library works on in-memory byte sources and sinks. The general purpose
//! [`read_tags`] and [`write_tags`] functions first detect the format of the
//! source with [`identify_format`] and then delegate to the per-format module;
//! each format module also exposes its own `read_tags` and `write_tags`.

pub mod error;
pub mod formats;
pub mod gif;
pub mod isobmff;
pub mod jpeg;
pub mod laws;
pub mod png;
pub mod riff;
pub mod tags;
pub mod utils;

pub use error::Error;
pub use formats::identify_format;
pub use formats::Format;
pub use tags::Tags;

use crate::formats::spec_identify;
use crate::utils::{spec_decode_tags, spec_encode_tags, spec_normalize, spec_skip, strs_view};
use vstd::prelude::*;

verus! {

/// What reading a source of a known format yields: the tags as character
/// strings, or the error the format module reports.
pub open spec fn spec_format_read(f: Format, src: Seq<u8>) -> Result<Seq<Seq<char>>, Error> {
    match f {
        Format::Gif => match gif::gif_header_end(src) {
            None => Err(Error::Io),
            Some(h) => match gif::gif_scan(src, h) {
                gif::GifScan::NoTags => Ok(Seq::empty()),
                gif::GifScan::Truncated => Err(Error::Io),
                gif::GifScan::Bad => Err(Error::InvalidSource),
                gif::GifScan::Found(d) => spec_decode_tags(d, Seq::<u8>::empty()),
            },
        },
        Format::Isobmff => match isobmff::bmff_scan(src, 0) {
            isobmff::BmffScan::NoTags => Ok(Seq::empty()),
            isobmff::BmffScan::Truncated => Err(Error::Io),
            isobmff::BmffScan::Bad => Err(Error::InvalidSource),
            isobmff::BmffScan::FoundAt(p) => spec_decode_tags(src.skip(p), Seq::<u8>::empty()),
        },
        Format::Jpeg => match jpeg::spec_jpeg_read(src) {
            jpeg::JpegScan::NoTags => Ok(Seq::empty()),
            jpeg::JpegScan::Truncated => Err(Error::Io),
            jpeg::JpegScan::Bad => Err(Error::InvalidSource),
            jpeg::JpegScan::FoundAt(p) => spec_decode_tags(src.skip(p), Seq::<u8>::empty()),
        },
        Format::Png => match png::png_scan(src, spec_skip(src.len() as int, 0, 8)) {
            png::PngScan::NoTags => Ok(Seq::empty()),
            png::PngScan::Truncated => Err(Error::Io),
            png::PngScan::Found(data, stored) => {
                let computed = png::crc32_of(png::meme_type() + data);
                if stored != computed {
                    Err(Error::PngChecksum(stored, computed))
                } else {
                    spec_decode_tags(data, Seq::<u8>::empty())
                }
            },
        },
        Format::Riff => if src.len() < 12 {
            Err(Error::Io)
        } else {
            match riff::riff_scan(src, 12) {
                riff::RiffScan::NoTags => Ok(Seq::empty()),
                riff::RiffScan::Truncated => Err(Error::Io),
                riff::RiffScan::FoundAt(p) => spec_decode_tags(src.skip(p), Seq::<u8>::empty()),
            }
        },
    }
}

/// What writing the encoded `payload` over a source of a known format puts in
/// the sink, or the error the format module reports.
pub open spec fn spec_format_write(f: Format, src: Seq<u8>, payload: Seq<u8>) -> Result<
    Seq<u8>,
    Error,
> {
    match f {
        Format::Gif => gif::spec_gif_write(src, payload),
        Format::Isobmff => isobmff::spec_bmff_write(src, payload),
        Format::Jpeg => jpeg::spec_jpeg_write(src, payload),
        Format::Png => png::spec_png_write(src, payload),
        Format::Riff => riff::spec_riff_write(src, payload),
    }
}

/// Given a `src`, return the tags (if any) contained inside.
///
/// This function operates by first calling [`identify_format`], and then
/// calling the corresponding `read_tags` function if successful. `None` means
/// the format of the source was not recognised.
pub fn read_tags(src: &Vec<u8>) -> (r: Result<Option<Vec<String>>, Error>)
    ensures
        spec_identify(src@) is None ==> r is Ok && r->Ok_0 is None,
        spec_identify(src@) is Some ==> match spec_format_read(spec_identify(src@)->0, src@) {
            Ok(ts) => r is Ok && r->Ok_0 is Some && strs_view(r->Ok_0->0@) == ts,
            Err(e) => r is Err && r->Err_0 == e,
        },
{
    let f = match identify_format(src) {
        Some(f) => f,
        None => {
            return Ok(None);
        },
    };
    let tags = match f {
        Format::Gif => gif::read_tags(src),
        Format::Isobmff => isobmff::read_tags(src),
        Format::Jpeg => jpeg::read_tags(src),
        Format::Png => png::read_tags(src),
        Format::Riff => riff::read_tags(src),
    };
    match tags {
        Ok(ts) => Ok(Some(ts)),
        Err(e) => Err(e),
    }
}

/// Read data from `src`, set the provided `tags`, and write to `dest`.
///
/// This function will remove any tags that previously existed in the source.
///
/// This function operates by first calling [`identify_format`], and then
/// calling the corresponding `write_tags` function if successful. `None`
/// means the format of the source was not recognised; the sink is then left
/// untouched. On an error the sink may already hold partial output, which the
/// caller discards.
pub fn write_tags(src: &Vec<u8>, dest: &mut Vec<u8>, tags: &Vec<String>) -> (r: Result<
    Option<()>,
    Error,
>)
    ensures
        spec_identify(src@) is None ==> r is Ok && r->Ok_0 is None && final(dest)@ == old(dest)@,
        spec_identify(src@) is Some ==> ({
            let payload = spec_encode_tags(spec_normalize(strs_view(tags@)));
            match spec_format_write(spec_identify(src@)->0, src@, payload) {
                Ok(out) => r is Ok && r->Ok_0 is Some && final(dest)@ == old(dest)@ + out,
                Err(e) => r is Err && r->Err_0 == e,
            }
        }),
{
    let f = match identify_format(src) {
        Some(f) => f,
        None => {
            return Ok(None);
        },
    };
    let written = match f {
        Format::Gif => gif::write_tags(src, dest, tags),
        Format::Isobmff => isobmff::write_tags(src, dest, tags),
        Format::Jpeg => jpeg::write_tags(src, dest, tags),
        Format::Png => png::write_tags(src, dest, tags),
        Format::Riff => riff::write_tags(src, dest, tags),
    };
    match written {
        Ok(_) => Ok(Some(())),
        Err(e) => Err(e),
    }
}

} // verus!
