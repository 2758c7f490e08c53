//! # ISO Base Media File Format
//!
//! ISOBMFF data is organized in boxes. Each box is structured as follows:
//!
//! - 4 byte big-endian number describing the length of the data within.
//! - 4 byte identifier for the box type.
//! - if the size is 1, then the size is actually stored in the next 8 bytes.
//! - if the size is 0, then the box lasts until the end of the file.
//! - if the type is `uuid`, then the real type is stored in the next 16 bytes.
//! - The box data itself, which may consist of other boxes.
//!
//! Only top-level boxes are walked; nested boxes are passed through as data.
//! The tags live in a `uuid` box with the UUID
//! `12EBC64DEA6247A08E92B9FB3B518C28`, placed at the end of the file since
//! boxes can reference data via byte offset.

use crate::error::Error;
use crate::utils::{
    be_bytes, be_val, decode_tags, encode_tags, eq4, lemma_be_bytes_be_val, lemma_be_val_bound,
    normalize_tags, passthrough, pow256, push_u32_be, push_u64_be, read_heap, read_u32_be,
    read_u64_be, skip, spec_decode_tags, spec_encode_tags, spec_normalize, spec_skip, strs_view,
};
use vstd::prelude::*;

verus! {

/// The FourCC that marks a box whose real type is a UUID.
pub open spec fn uuid_type() -> Seq<u8> {
    seq![0x75u8, 0x75, 0x69, 0x64]
}

/// The UUID of the tag box.
pub open spec fn memedb_uuid() -> Seq<u8> {
    seq![
        0x12u8,
        0xEB,
        0xC6,
        0x4D,
        0xEA,
        0x62,
        0x47,
        0xA0,
        0x8E,
        0x92,
        0xB9,
        0xFB,
        0x3B,
        0x51,
        0x8C,
        0x28,
    ]
}

/// The size of a box as its header declares it: the 4-byte form, or the
/// 8-byte form that follows a size field of 1.
pub enum BoxSize {
    Short(u32),
    Long(u64),
}

/// The type of a box: a FourCC, or the 16-byte UUID of a `uuid` box.
pub enum BoxType {
    Short(Vec<u8>),
    Long(Vec<u8>),
}

/// A parsed box header.
pub struct BmffBox {
    pub size: BoxSize,
    pub typ: BoxType,
}

/// How many bytes the header starting at `pos` occupies: 8, plus 8 for a long
/// size, plus 16 for a UUID type.
pub open spec fn bmff_hdr_len(src: Seq<u8>, pos: int) -> int {
    8 + (if be_val(src.subrange(pos, pos + 4)) == 1 {
        8int
    } else {
        0int
    }) + (if src.subrange(pos + 4, pos + 8) == uuid_type() {
        16int
    } else {
        0int
    })
}

/// The total size the header at `pos` declares for its box.
pub open spec fn bmff_declared(src: Seq<u8>, pos: int) -> nat {
    if be_val(src.subrange(pos, pos + 4)) == 1 {
        be_val(src.subrange(pos + 8, pos + 16))
    } else {
        be_val(src.subrange(pos, pos + 4))
    }
}

pub open spec fn bmff_is_uuid(src: Seq<u8>, pos: int) -> bool {
    src.subrange(pos + 4, pos + 8) == uuid_type()
}

/// The 16 UUID bytes of the `uuid` box at `pos`.
pub open spec fn bmff_uuid_bytes(src: Seq<u8>, pos: int) -> Seq<u8> {
    src.subrange(pos + bmff_hdr_len(src, pos) - 16, pos + bmff_hdr_len(src, pos))
}

/// The box at `pos` is the tag box.
pub open spec fn bmff_is_memedb(src: Seq<u8>, pos: int) -> bool {
    bmff_is_uuid(src, pos) && bmff_uuid_bytes(src, pos) == memedb_uuid()
}

impl BmffBox {
    /// A header as parsing produces it: a 4-byte type that is not `uuid`, or
    /// a 16-byte UUID.
    pub open spec fn wf(&self) -> bool {
        match self.typ {
            BoxType::Short(t) => t@.len() == 4 && t@ != uuid_type(),
            BoxType::Long(u) => u@.len() == 16,
        }
    }

    /// The bytes this header writes back to a sink.
    pub open spec fn spec_header(&self) -> Seq<u8> {
        (match self.size {
            BoxSize::Short(s) => be_bytes(s as nat, 4),
            BoxSize::Long(_) => seq![0u8, 0, 0, 1],
        }) + (match self.typ {
            BoxType::Short(t) => t@,
            BoxType::Long(_) => uuid_type(),
        }) + (match self.size {
            BoxSize::Short(_) => Seq::<u8>::empty(),
            BoxSize::Long(s) => be_bytes(s as nat, 8),
        }) + (match self.typ {
            BoxType::Short(_) => Seq::<u8>::empty(),
            BoxType::Long(u) => u@,
        })
    }

    /// The declared total size of the box.
    pub open spec fn spec_declared(&self) -> nat {
        match self.size {
            BoxSize::Short(s) => s as nat,
            BoxSize::Long(s) => s as nat,
        }
    }

    /// How many bytes of the declared size the header itself takes.
    pub open spec fn spec_hdr_size(&self) -> int {
        (match self.size {
            BoxSize::Short(_) => 8int,
            BoxSize::Long(_) => 16int,
        }) + (match self.typ {
            BoxType::Short(_) => 0int,
            BoxType::Long(_) => 16int,
        })
    }

    pub open spec fn spec_is_memedb(&self) -> bool {
        match self.typ {
            BoxType::Long(u) => u@ == memedb_uuid(),
            BoxType::Short(_) => false,
        }
    }

    pub open spec fn spec_size_zero(&self) -> bool {
        self.size == BoxSize::Short(0u32)
    }

    /// Parse the header of the box at `pos`. Fails when the source ends
    /// inside the header.
    pub fn read(src: &Vec<u8>, pos: &mut usize) -> (r: Result<BmffBox, Error>)
        requires
            *old(pos) <= src@.len(),
        ensures
            *old(pos) + bmff_hdr_len(src@, *old(pos) as int) <= src@.len() ==> {
                &&& r is Ok
                &&& *final(pos) == *old(pos) + bmff_hdr_len(src@, *old(pos) as int)
                &&& r->Ok_0.wf()
                &&& r->Ok_0.spec_header() == src@.subrange(*old(pos) as int, *final(pos) as int)
                &&& r->Ok_0.spec_declared() == bmff_declared(src@, *old(pos) as int)
                &&& r->Ok_0.spec_hdr_size() == bmff_hdr_len(src@, *old(pos) as int)
                &&& r->Ok_0.spec_is_memedb() == bmff_is_memedb(src@, *old(pos) as int)
                &&& (r->Ok_0.spec_size_zero() <==> be_val(
                    src@.subrange(*old(pos) as int, *old(pos) + 4),
                ) == 0)
                &&& (bmff_is_uuid(src@, *old(pos) as int) ==> (r->Ok_0.typ matches BoxType::Long(u)
                    && u@ == bmff_uuid_bytes(src@, *old(pos) as int)))
                &&& (!bmff_is_uuid(src@, *old(pos) as int) ==> (r->Ok_0.typ matches BoxType::Short(
                    t,
                ) && t@ == src@.subrange(*old(pos) + 4, *old(pos) + 8)))
            },
            *old(pos) + bmff_hdr_len(src@, *old(pos) as int) > src@.len() ==> r == Err::<
                BmffBox,
                Error,
            >(Error::Io),
            *final(pos) <= src@.len(),
    {
        let ghost p0 = *pos as int;
        let s32 = match read_u32_be(src, pos) {
            Ok(v) => v,
            Err(_) => {
                return Err(Error::Io);
            },
        };
        let t4 = match read_heap(src, pos, 4) {
            Ok(v) => v,
            Err(_) => {
                return Err(Error::Io);
            },
        };
        proof {
            lemma_be_val_bound(src@.subrange(p0, p0 + 4));
            assert(pow256(4) == 0x100000000) by {
                assert(pow256(0) == 1);
                assert(pow256(1) == 0x100);
                assert(pow256(2) == 0x10000);
                assert(pow256(3) == 0x1000000);
            }
            lemma_be_bytes_be_val(src@.subrange(p0, p0 + 4));
        }
        let size = if s32 == 1 {
            let s64 = match read_u64_be(src, pos) {
                Ok(v) => v,
                Err(_) => {
                    return Err(Error::Io);
                },
            };
            proof {
                lemma_be_val_bound(src@.subrange(p0 + 8, p0 + 16));
                assert(pow256(8) == 0x10000000000000000) by {
                    assert(pow256(0) == 1);
                    assert(pow256(1) == 0x100);
                    assert(pow256(2) == 0x10000);
                    assert(pow256(3) == 0x1000000);
                    assert(pow256(4) == 0x100000000);
                    assert(pow256(5) == 0x10000000000);
                    assert(pow256(6) == 0x1000000000000);
                    assert(pow256(7) == 0x100000000000000);
                }
                lemma_be_bytes_be_val(src@.subrange(p0 + 8, p0 + 16));
                assert(be_bytes(1nat, 4) =~= seq![0u8, 0, 0, 1]) by {
                    assert(be_bytes(0nat, 0) =~= Seq::<u8>::empty());
                    assert(be_bytes(0nat, 1) =~= seq![0u8]);
                    assert(be_bytes(0nat, 2) =~= seq![0u8, 0]);
                    assert(be_bytes(0nat, 3) =~= seq![0u8, 0, 0]);
                }
            }
            BoxSize::Long(s64)
        } else {
            BoxSize::Short(s32)
        };
        let typ = if eq4(&t4, 0x75, 0x75, 0x69, 0x64) {
            let u = match read_heap(src, pos, 16) {
                Ok(v) => v,
                Err(_) => {
                    return Err(Error::Io);
                },
            };
            BoxType::Long(u)
        } else {
            BoxType::Short(t4)
        };
        let b = BmffBox { size, typ };
        proof {
            assert(b.spec_header() =~= src@.subrange(p0, *pos as int));
        }
        Ok(b)
    }

    /// The length of the data that follows the header, or `None` when the
    /// declared size is smaller than the header itself.
    pub fn data_size(&self) -> (r: Option<u64>)
        requires
            self.wf(),
        ensures
            (r is Some <==> self.spec_declared() >= self.spec_hdr_size()),
            r is Some ==> r->0 as int == self.spec_declared() - self.spec_hdr_size(),
    {
        let ts: u64 = match &self.typ {
            BoxType::Short(_) => 4,
            BoxType::Long(_) => 20,
        };
        match &self.size {
            BoxSize::Short(s) => {
                if (*s as u64) < 4 + ts {
                    None
                } else {
                    Some(*s as u64 - (4 + ts))
                }
            },
            BoxSize::Long(s) => {
                if *s < 12 + ts {
                    None
                } else {
                    Some(*s - (12 + ts))
                }
            },
        }
    }

    /// Write the header back to the sink, in the same form it was read in.
    pub fn write(&self, dest: &mut Vec<u8>)
        requires
            self.wf(),
        ensures
            final(dest)@ == old(dest)@ + self.spec_header(),
    {
        match &self.size {
            BoxSize::Short(s) => push_u32_be(dest, *s),
            BoxSize::Long(_) => {
                dest.push(0);
                dest.push(0);
                dest.push(0);
                dest.push(1);
            },
        }
        match &self.typ {
            BoxType::Short(t) => {
                let mut tp: usize = 0;
                passthrough(t, &mut tp, dest, 4);
            },
            BoxType::Long(_) => {
                dest.push(0x75);
                dest.push(0x75);
                dest.push(0x69);
                dest.push(0x64);
            },
        }
        if let BoxSize::Long(s) = &self.size {
            push_u64_be(dest, *s);
        }
        if let BoxType::Long(u) = &self.typ {
            let mut up: usize = 0;
            passthrough(u, &mut up, dest, 16);
        }
        proof {
            match &self.size {
                BoxSize::Short(_) => {},
                BoxSize::Long(_) => {
                    assert(seq![0u8, 0, 0, 1] =~= Seq::<u8>::empty().push(0).push(0).push(0).push(
                        1,
                    ));
                },
            }
            match &self.typ {
                BoxType::Short(t) => {
                    assert(t@.subrange(0, 4) =~= t@);
                },
                BoxType::Long(u) => {
                    assert(u@.subrange(0, 16) =~= u@);
                    assert(uuid_type() =~= Seq::<u8>::empty().push(0x75u8).push(0x75).push(
                        0x69,
                    ).push(0x64));
                },
            }
            assert(final(dest)@ =~= old(dest)@ + self.spec_header());
        }
    }

    /// A fresh box of the given type around `data_size` bytes of data,
    /// choosing the short or the long size form as the total requires.
    pub fn new(typ: BoxType, data_size: u64) -> (r: BmffBox)
        requires
            (match typ {
                BoxType::Short(t) => t@.len() == 4 && t@ != uuid_type(),
                BoxType::Long(u) => u@.len() == 16,
            }),
            data_size <= u64::MAX - 32,
        ensures
            r.wf(),
            r.typ == typ,
            ({
                let total = 4 + (match typ {
                    BoxType::Short(_) => 4int,
                    BoxType::Long(_) => 20int,
                }) + data_size;
                r.size == (if total > 0xFFFFFFFF {
                    BoxSize::Long((total + 8) as u64)
                } else {
                    BoxSize::Short(total as u32)
                })
            }),
    {
        let ts: u64 = match &typ {
            BoxType::Short(_) => 4,
            BoxType::Long(_) => 20,
        };
        let total: u64 = 4 + ts + data_size;
        let size = if total > 0xFFFFFFFF {
            BoxSize::Long(total + 8)
        } else {
            BoxSize::Short(total as u32)
        };
        BmffBox { size, typ }
    }
}

/// Outcome of walking the top-level boxes from `pos` for the tag box: the
/// position of the tag box's data, `NoTags` when the source ends cleanly or a
/// size-zero box stops the walk first, `Truncated` when a box's data is cut
/// short, `Bad` when a box declares a size smaller than its own header.
pub enum BmffScan {
    FoundAt(int),
    NoTags,
    Truncated,
    Bad,
}

pub open spec fn bmff_scan(src: Seq<u8>, pos: int) -> BmffScan
    decreases src.len() - pos when 0 <= pos <= src.len()
{
    let len = src.len() as int;
    if pos + 8 > len {
        BmffScan::NoTags
    } else {
        let hdr = bmff_hdr_len(src, pos);
        if pos + hdr > len {
            BmffScan::NoTags
        } else if be_val(src.subrange(pos, pos + 4)) == 0 {
            BmffScan::NoTags
        } else if bmff_is_memedb(src, pos) {
            BmffScan::FoundAt(pos + hdr)
        } else {
            let declared = bmff_declared(src, pos) as int;
            if declared < hdr {
                BmffScan::Bad
            } else if pos + declared > len {
                BmffScan::Truncated
            } else {
                bmff_scan(src, pos + declared)
            }
        }
    }
}

/// Given a `src`, return the tags contained inside.
///
/// Top-level boxes are walked until the tag box, a size-zero box, or the end
/// of the source; the tag box's data is decoded.
pub fn read_tags(src: &Vec<u8>) -> (r: Result<Vec<String>, Error>)
    ensures
        match bmff_scan(src@, 0) {
            BmffScan::NoTags => r is Ok && r->Ok_0@ == Seq::<String>::empty(),
            BmffScan::Truncated => r == Err::<Vec<String>, Error>(Error::Io),
            BmffScan::Bad => r == Err::<Vec<String>, Error>(Error::InvalidSource),
            BmffScan::FoundAt(p) => match spec_decode_tags(src@.skip(p), Seq::<u8>::empty()) {
                Ok(ts) => r is Ok && strs_view(r->Ok_0@) == ts,
                Err(e) => r is Err && r->Err_0 == e,
            },
        },
{
    let srclen = src.len();
    let mut pos: usize = 0;
    loop
        invariant
            pos <= srclen,
            srclen == src@.len(),
            bmff_scan(src@, 0) == bmff_scan(src@, pos as int),
        decreases src@.len() - pos,
    {
        let ghost q0 = pos as int;
        let bx = match BmffBox::read(src, &mut pos) {
            Ok(b) => b,
            Err(_) => {
                return Ok(Vec::new());
            },
        };
        let size_zero = match &bx.size {
            BoxSize::Short(s) => *s == 0,
            BoxSize::Long(_) => false,
        };
        if size_zero {
            return Ok(Vec::new());
        }
        let memedb = match &bx.typ {
            BoxType::Long(u) => is_memedb_uuid(u),
            BoxType::Short(_) => false,
        };
        if memedb {
            let r = decode_tags(src, &mut pos);
            return r;
        }
        let ds = match bx.data_size() {
            Some(d) => d,
            None => {
                return Err(Error::InvalidSource);
            },
        };
        let before = pos;
        skip(src, &mut pos, ds);
        if ((pos - before) as u64) < ds {
            return Err(Error::Io);
        }
    }
}

/// Compare a 16-byte buffer against the tag box UUID.
fn is_memedb_uuid(u: &Vec<u8>) -> (r: bool)
    requires
        u@.len() == 16,
    ensures
        r == (u@ == memedb_uuid()),
{
    let e = u[0] == 0x12 && u[1] == 0xEB && u[2] == 0xC6 && u[3] == 0x4D && u[4] == 0xEA && u[5]
        == 0x62 && u[6] == 0x47 && u[7] == 0xA0 && u[8] == 0x8E && u[9] == 0x92 && u[10] == 0xB9
        && u[11] == 0xFB && u[12] == 0x3B && u[13] == 0x51 && u[14] == 0x8C && u[15] == 0x28;
    proof {
        if e {
            assert(u@ =~= memedb_uuid());
        }
        if u@ == memedb_uuid() {
            assert(u@[0] == 0x12 && u@[1] == 0xEB && u@[2] == 0xC6 && u@[3] == 0x4D && u@[4]
                == 0xEA && u@[5] == 0x62 && u@[6] == 0x47 && u@[7] == 0xA0 && u@[8] == 0x8E && u@[9]
                == 0x92 && u@[10] == 0xB9 && u@[11] == 0xFB && u@[12] == 0x3B && u@[13] == 0x51
                && u@[14] == 0x8C && u@[15] == 0x28);
        }
    }
    e
}

/// The header a rewritten terminal box gets: the type parsed at `pos`, with
/// an explicit size around `dlen` bytes of data.
pub open spec fn bmff_terminal_bytes(src: Seq<u8>, pos: int, dlen: int) -> Seq<u8> {
    let is_uuid = bmff_is_uuid(src, pos);
    let t4 = src.subrange(pos + 4, pos + 8);
    let ub = if is_uuid {
        bmff_uuid_bytes(src, pos)
    } else {
        Seq::<u8>::empty()
    };
    let total = 4 + (if is_uuid {
        20int
    } else {
        4int
    }) + dlen;
    if total > 0xFFFFFFFF {
        seq![0u8, 0, 0, 1] + t4 + be_bytes((total + 8) as nat, 8) + ub
    } else {
        be_bytes(total as nat, 4) + t4 + ub
    }
}

/// The fresh tag box around `payload`.
pub open spec fn bmff_tag_box(payload: Seq<u8>) -> Seq<u8> {
    let total = 24 + payload.len() as int;
    (if total > 0xFFFFFFFF {
        seq![0u8, 0, 0, 1] + uuid_type() + be_bytes((total + 8) as nat, 8) + memedb_uuid()
    } else {
        be_bytes(total as nat, 4) + uuid_type() + memedb_uuid()
    }) + payload
}

/// The bytes the writer emits while walking the source's boxes: every box
/// except the tag box copied whole, a size-zero terminal box rewritten with
/// an explicit size around the rest of the source, and the walk ending
/// cleanly at the end of the source.
pub open spec fn bmff_copy(src: Seq<u8>, pos: int) -> Result<Seq<u8>, Error>
    decreases src.len() - pos when 0 <= pos <= src.len()
{
    let len = src.len() as int;
    if pos + 8 > len {
        Ok(Seq::empty())
    } else {
        let hdr = bmff_hdr_len(src, pos);
        if pos + hdr > len {
            Ok(Seq::empty())
        } else if be_val(src.subrange(pos, pos + 4)) == 0 {
            let dlen = len - (pos + hdr);
            if dlen > 0xFFFFFFFFFFFFFFDF {
                Err(Error::ChunkSizeOverflow)
            } else {
                Ok(bmff_terminal_bytes(src, pos, dlen) + src.subrange(pos + hdr, len))
            }
        } else {
            let declared = bmff_declared(src, pos) as int;
            if declared < hdr {
                Err(Error::InvalidSource)
            } else {
                let next = spec_skip(len, pos + hdr, declared - hdr);
                if bmff_is_memedb(src, pos) {
                    bmff_copy(src, next)
                } else {
                    match bmff_copy(src, next) {
                        Ok(o) => Ok(src.subrange(pos, next) + o),
                        Err(e) => Err(e),
                    }
                }
            }
        }
    }
}

/// What writing puts in the sink: the walked boxes, then the fresh tag box.
/// Errors: `InvalidSource` for a box whose declared size is smaller than its
/// header, `ChunkSizeOverflow` when a box size cannot be represented.
pub open spec fn spec_bmff_write(src: Seq<u8>, payload: Seq<u8>) -> Result<Seq<u8>, Error> {
    match bmff_copy(src, 0) {
        Err(e) => Err(e),
        Ok(body) => {
            if payload.len() > 0xFFFFFFFFFFFFFFDF {
                Err(Error::ChunkSizeOverflow)
            } else {
                Ok(body + bmff_tag_box(payload))
            }
        },
    }
}

/// Read data from `src`, set the provided `tags`, and write to `dest`.
///
/// This function will remove any tags that previously existed in `src`. On an
/// error the sink may already hold a partial copy, which the caller discards.
#[verifier::rlimit(50)]
pub fn write_tags(src: &Vec<u8>, dest: &mut Vec<u8>, tags: &Vec<String>) -> (r: Result<(), Error>)
    ensures
        ({
            let payload = spec_encode_tags(spec_normalize(strs_view(tags@)));
            match spec_bmff_write(src@, payload) {
                Ok(out) => r is Ok && final(dest)@ == old(dest)@ + out,
                Err(e) => r is Err && r->Err_0 == e,
            }
        }),
{
    let srclen = src.len();
    let mut pos: usize = 0;
    loop
        invariant_except_break
            pos <= srclen,
            srclen == src@.len(),
            (match bmff_copy(src@, pos as int) {
                Ok(o) => Ok::<Seq<u8>, Error>(dest@ + o),
                Err(e) => Err::<Seq<u8>, Error>(e),
            }) == (match bmff_copy(src@, 0) {
                Ok(o) => Ok::<Seq<u8>, Error>(old(dest)@ + o),
                Err(e) => Err::<Seq<u8>, Error>(e),
            }),
        ensures
            bmff_copy(src@, 0) is Ok,
            dest@ == old(dest)@ + bmff_copy(src@, 0)->Ok_0,
        decreases src@.len() - pos,
    {
        let ghost q0 = pos as int;
        let bx = match BmffBox::read(src, &mut pos) {
            Ok(b) => b,
            Err(_) => {
                proof {
                    assert(bmff_copy(src@, q0) == Ok::<Seq<u8>, Error>(Seq::empty()));
                    assert(dest@ + Seq::<u8>::empty() =~= dest@);
                }
                break ;
            },
        };
        let size_zero = match &bx.size {
            BoxSize::Short(s) => *s == 0,
            BoxSize::Long(_) => false,
        };
        if size_zero {
            let dlen = srclen - pos;
            if dlen as u64 > 0xFFFFFFFFFFFFFFDFu64 {
                proof {
                    assert(bmff_copy(src@, q0) == Err::<Seq<u8>, Error>(Error::ChunkSizeOverflow));
                }
                return Err(Error::ChunkSizeOverflow);
            }
            let ghost pre = dest@;
            let nb = BmffBox::new(bx.typ, dlen as u64);
            nb.write(dest);
            passthrough(src, &mut pos, dest, dlen as u64);
            proof {
                match &nb.typ {
                    BoxType::Short(t) => {
                        assert(nb.spec_header() =~= bmff_terminal_bytes(src@, q0, dlen as int));
                    },
                    BoxType::Long(u) => {
                        assert(nb.spec_header() =~= bmff_terminal_bytes(src@, q0, dlen as int));
                    },
                }
                assert(bmff_copy(src@, q0) == Ok::<Seq<u8>, Error>(
                    bmff_terminal_bytes(src@, q0, dlen as int) + src@.subrange(
                        q0 + bmff_hdr_len(src@, q0),
                        srclen as int,
                    ),
                ));
                assert(dest@ =~= pre + (bmff_terminal_bytes(src@, q0, dlen as int) + src@.subrange(
                    q0 + bmff_hdr_len(src@, q0),
                    srclen as int,
                )));
            }
            break ;
        }
        let memedb = match &bx.typ {
            BoxType::Long(u) => is_memedb_uuid(u),
            BoxType::Short(_) => false,
        };
        let ds = match bx.data_size() {
            Some(d) => d,
            None => {
                proof {
                    assert(bmff_copy(src@, q0) == Err::<Seq<u8>, Error>(Error::InvalidSource));
                }
                return Err(Error::InvalidSource);
            },
        };
        if memedb {
            skip(src, &mut pos, ds);
            proof {
                assert(bmff_copy(src@, q0) == bmff_copy(src@, pos as int));
            }
        } else {
            let ghost pre = dest@;
            bx.write(dest);
            passthrough(src, &mut pos, dest, ds);
            proof {
                assert(dest@ =~= pre + src@.subrange(q0, pos as int));
                let co = bmff_copy(src@, pos as int);
                assert(bmff_copy(src@, q0) == (match co {
                    Ok(o) => Ok::<Seq<u8>, Error>(src@.subrange(q0, pos as int) + o),
                    Err(e) => Err::<Seq<u8>, Error>(e),
                }));
                if co is Ok {
                    assert(pre + (src@.subrange(q0, pos as int) + co->Ok_0) =~= dest@ + co->Ok_0);
                }
            }
        }
    }

    let norm = normalize_tags(tags);
    let mut payload: Vec<u8> = Vec::new();
    encode_tags(&norm, &mut payload);
    if payload.len() as u64 > 0xFFFFFFFFFFFFFFDFu64 {
        return Err(Error::ChunkSizeOverflow);
    }
    let ghost pay = payload@;
    let ghost predest = dest@;
    let mut uuid: Vec<u8> = Vec::new();
    uuid.push(0x12);
    uuid.push(0xEB);
    uuid.push(0xC6);
    uuid.push(0x4D);
    uuid.push(0xEA);
    uuid.push(0x62);
    uuid.push(0x47);
    uuid.push(0xA0);
    uuid.push(0x8E);
    uuid.push(0x92);
    uuid.push(0xB9);
    uuid.push(0xFB);
    uuid.push(0x3B);
    uuid.push(0x51);
    uuid.push(0x8C);
    uuid.push(0x28);
    proof {
        assert(uuid@ =~= memedb_uuid());
    }
    let tb = BmffBox::new(BoxType::Long(uuid), payload.len() as u64);
    tb.write(dest);
    let mut pp: usize = 0;
    passthrough(&payload, &mut pp, dest, payload.len() as u64);
    proof {
        assert(payload@.subrange(0, payload@.len() as int) =~= payload@);
        assert(tb.spec_header() + pay =~= bmff_tag_box(pay));
        assert(final(dest)@ =~= old(dest)@ + (bmff_copy(src@, 0)->Ok_0 + bmff_tag_box(pay)));
    }
    Ok(())
}

} // verus!
