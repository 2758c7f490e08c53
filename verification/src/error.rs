use vstd::prelude::*;

verus! {

/// A possible error returned by a `read_tags` or `write_tags` function.
#[derive(Clone, Copy, Debug, PartialEq, Eq, Structural)]
pub enum Error {
    /// The source ended in the middle of a structure that had to be complete.
    Io,
    /// The bytes of a tag region do not form valid UTF-8.
    Utf8,
    /// The encoded tag payload does not fit in the container's size field.
    ChunkSizeOverflow,
    /// The stored CRC-32 of a tag chunk does not match the one computed over
    /// its contents; the fields are the stored and the computed value.
    PngChecksum(u32, u32),
    /// The container grammar was violated in a way the parser cannot continue
    /// past.
    InvalidSource,
}

} // verus!
