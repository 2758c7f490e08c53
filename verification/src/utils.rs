//! Primitives shared by every format module: sequential reads over an
//! in-memory byte source, byte-for-byte passthrough into a sink, and the tag
//! codec that maps between a set of strings and its self-delimited byte form.

use crate::error::Error;
use vstd::prelude::*;
use vstd::string::StrSliceExecFns;
use vstd::utf8::{decode_utf8, encode_utf8, valid_utf8};

verus! {

/// Position after skipping forward by `n` from `pos` in a source of length
/// `len`: the skip stops at the end of the source.
pub open spec fn spec_skip(len: int, pos: int, n: int) -> int {
    if pos >= len {
        pos
    } else if pos + n <= len {
        pos + n
    } else {
        len
    }
}

/// Read one byte and advance, or fail when the source is exhausted.
pub fn read_byte(src: &Vec<u8>, pos: &mut usize) -> (r: Result<u8, Error>)
    ensures
        *old(pos) < src@.len() ==> r == Ok::<u8, Error>(src@[*old(pos) as int]) && *final(pos)
            == *old(pos) + 1,
        *old(pos) >= src@.len() ==> r == Err::<u8, Error>(Error::Io) && *final(pos) == *old(pos),
{
    if *pos < src.len() {
        let b = src[*pos];
        *pos = *pos + 1;
        Ok(b)
    } else {
        Err(Error::Io)
    }
}

/// Read a buffer of `n` bytes and advance, or fail when fewer than `n` bytes
/// remain; a failed read leaves the position unchanged.
pub fn read_heap(src: &Vec<u8>, pos: &mut usize, n: usize) -> (r: Result<Vec<u8>, Error>)
    ensures
        *old(pos) + n <= src@.len() ==> {
            &&& r is Ok
            &&& r->Ok_0@ == src@.subrange(*old(pos) as int, *old(pos) + n)
            &&& *final(pos) == *old(pos) + n
        },
        *old(pos) + n > src@.len() ==> r == Err::<Vec<u8>, Error>(Error::Io) && *final(pos)
            == *old(pos),
{
    if *pos <= src.len() && n <= src.len() - *pos {
        let start = *pos;
        let mut out: Vec<u8> = Vec::new();
        let mut i: usize = 0;
        while i < n
            invariant
                start + n <= src@.len(),
                src@.len() <= usize::MAX,
                i <= n,
                out@ == src@.subrange(start as int, start + i),
            decreases n - i,
        {
            out.push(src[start + i]);
            i = i + 1;
            proof {
                assert(out@ =~= src@.subrange(start as int, start + i));
            }
        }
        *pos = start + n;
        Ok(out)
    } else {
        Err(Error::Io)
    }
}

/// Move the position forward by `n`, stopping at the end of the source.
pub fn skip(src: &Vec<u8>, pos: &mut usize, n: u64)
    ensures
        *final(pos) == spec_skip(src@.len() as int, *old(pos) as int, n as int),
{
    if *pos < src.len() {
        let rem: u64 = (src.len() - *pos) as u64;
        if n < rem {
            *pos = *pos + n as usize;
        } else {
            *pos = src.len();
        }
    }
}

/// Copy up to `n` bytes from the source to the sink, returning how many bytes
/// were copied; fewer than `n` are copied only when the source ends first.
pub fn passthrough(src: &Vec<u8>, pos: &mut usize, dest: &mut Vec<u8>, n: u64) -> (copied: u64)
    requires
        *old(pos) <= src@.len(),
    ensures
        *final(pos) == spec_skip(src@.len() as int, *old(pos) as int, n as int),
        final(dest)@ == old(dest)@ + src@.subrange(*old(pos) as int, *final(pos) as int),
        copied == *final(pos) - *old(pos),
{
    let start = *pos;
    skip(src, pos, n);
    let end = *pos;
    proof {
        assert(dest@ =~= dest@ + src@.subrange(start as int, start as int));
    }
    let mut i: usize = start;
    while i < end
        invariant
            start <= i <= end <= src@.len(),
            dest@ == old(dest)@ + src@.subrange(start as int, i as int),
        decreases end - i,
    {
        dest.push(src[i]);
        i = i + 1;
        proof {
            assert(dest@ =~= old(dest)@ + src@.subrange(start as int, i as int));
        }
    }
    (end - start) as u64
}

/// Value of a byte string read as a big-endian integer.
pub open spec fn be_val(s: Seq<u8>) -> nat
    decreases s.len(),
{
    if s.len() == 0 {
        0
    } else {
        (be_val(s.drop_last()) * 256 + s.last()) as nat
    }
}

/// Value of a byte string read as a little-endian integer.
pub open spec fn le_val(s: Seq<u8>) -> nat
    decreases s.len(),
{
    if s.len() == 0 {
        0
    } else {
        (s.first() + 256 * le_val(s.drop_first())) as nat
    }
}

/// The `w`-byte big-endian form of `n` (modulo 256^w).
pub open spec fn be_bytes(n: nat, w: nat) -> Seq<u8>
    decreases w,
{
    if w == 0 {
        Seq::empty()
    } else {
        be_bytes(n / 256, (w - 1) as nat).push((n % 256) as u8)
    }
}

/// The `w`-byte little-endian form of `n` (modulo 256^w).
pub open spec fn le_bytes(n: nat, w: nat) -> Seq<u8>
    decreases w,
{
    if w == 0 {
        Seq::empty()
    } else {
        seq![(n % 256) as u8] + le_bytes(n / 256, (w - 1) as nat)
    }
}

pub open spec fn pow256(w: nat) -> nat
    decreases w,
{
    if w == 0 {
        1
    } else {
        256 * pow256((w - 1) as nat)
    }
}

pub proof fn lemma_be_bytes_len(n: nat, w: nat)
    ensures
        be_bytes(n, w).len() == w,
    decreases w,
{
    if w > 0 {
        lemma_be_bytes_len(n / 256, (w - 1) as nat);
    }
}

pub proof fn lemma_le_bytes_len(n: nat, w: nat)
    ensures
        le_bytes(n, w).len() == w,
    decreases w,
{
    if w > 0 {
        lemma_le_bytes_len(n / 256, (w - 1) as nat);
    }
}

pub proof fn lemma_be_val_unfold(src: Seq<u8>, a: int, b: int)
    requires
        0 <= a < b <= src.len(),
    ensures
        be_val(src.subrange(a, b)) == be_val(src.subrange(a, b - 1)) * 256 + src[b - 1],
{
    assert(src.subrange(a, b).drop_last() =~= src.subrange(a, b - 1));
}

pub proof fn lemma_le_val_unfold(src: Seq<u8>, a: int, b: int)
    requires
        0 <= a < b <= src.len(),
    ensures
        le_val(src.subrange(a, b)) == src[a] + 256 * le_val(src.subrange(a + 1, b)),
{
    assert(src.subrange(a, b).drop_first() =~= src.subrange(a + 1, b));
}

/// Reading back the `w` big-endian bytes of `n` yields `n` again.
pub proof fn lemma_be_val_be_bytes(n: nat, w: nat)
    requires
        n < pow256(w),
    ensures
        be_val(be_bytes(n, w)) == n,
    decreases w,
{
    if w > 0 {
        let m = pow256((w - 1) as nat);
        assert(n / 256 < m) by (nonlinear_arith)
            requires
                n < 256 * m,
                m > 0,
        ;
        lemma_be_val_be_bytes(n / 256, (w - 1) as nat);
        let x = be_bytes(n / 256, (w - 1) as nat);
        assert(be_bytes(n, w).drop_last() =~= x);
        assert(n == 256 * (n / 256) + n % 256) by {
            vstd::arithmetic::div_mod::lemma_fundamental_div_mod(n as int, 256);
        }
    }
}

/// Reading back the `w` little-endian bytes of `n` yields `n` again.
pub proof fn lemma_le_val_le_bytes(n: nat, w: nat)
    requires
        n < pow256(w),
    ensures
        le_val(le_bytes(n, w)) == n,
    decreases w,
{
    if w > 0 {
        let m = pow256((w - 1) as nat);
        assert(n / 256 < m) by (nonlinear_arith)
            requires
                n < 256 * m,
                m > 0,
        ;
        lemma_le_val_le_bytes(n / 256, (w - 1) as nat);
        let x = le_bytes(n / 256, (w - 1) as nat);
        assert(le_bytes(n, w).drop_first() =~= x);
        assert(n == 256 * (n / 256) + n % 256) by {
            vstd::arithmetic::div_mod::lemma_fundamental_div_mod(n as int, 256);
        }
    }
}

/// Writing back the value read from a byte string yields the bytes again.
pub proof fn lemma_be_bytes_be_val(s: Seq<u8>)
    ensures
        be_bytes(be_val(s), s.len()) == s,
    decreases s.len(),
{
    if s.len() > 0 {
        let v = be_val(s);
        assert(v % 256 == s.last() && v / 256 == be_val(s.drop_last())) by (nonlinear_arith)
            requires
                v == be_val(s.drop_last()) * 256 + s.last(),
                s.last() < 256,
        ;
        lemma_be_bytes_be_val(s.drop_last());
        assert(be_bytes(v, s.len()) =~= s);
    } else {
        assert(be_bytes(be_val(s), 0) =~= s);
    }
}

/// The value read from `w` bytes fits in `w` bytes.
pub proof fn lemma_be_val_bound(s: Seq<u8>)
    ensures
        be_val(s) < pow256(s.len()),
    decreases s.len(),
{
    if s.len() > 0 {
        lemma_be_val_bound(s.drop_last());
    }
}

pub proof fn lemma_le_val_bound(s: Seq<u8>)
    ensures
        le_val(s) < pow256(s.len()),
    decreases s.len(),
{
    if s.len() > 0 {
        lemma_le_val_bound(s.drop_first());
    }
}

/// Compare a 4-byte buffer against four literal bytes.
pub fn eq4(t: &Vec<u8>, a: u8, b: u8, c: u8, d: u8) -> (r: bool)
    requires
        t@.len() == 4,
    ensures
        r == (t@ == seq![a, b, c, d]),
{
    let e = t[0] == a && t[1] == b && t[2] == c && t[3] == d;
    proof {
        if e {
            assert(t@ =~= seq![a, b, c, d]);
        }
        if t@ == seq![a, b, c, d] {
            assert(t@[0] == a && t@[1] == b && t@[2] == c && t@[3] == d);
        }
    }
    e
}

/// Read a 2-byte big-endian integer.
pub fn read_u16_be(src: &Vec<u8>, pos: &mut usize) -> (r: Result<u16, Error>)
    ensures
        *old(pos) + 2 <= src@.len() ==> {
            &&& r is Ok
            &&& r->Ok_0 as nat == be_val(src@.subrange(*old(pos) as int, *old(pos) + 2))
            &&& *final(pos) == *old(pos) + 2
        },
        *old(pos) + 2 > src@.len() ==> r == Err::<u16, Error>(Error::Io) && *final(pos) == *old(
            pos,
        ),
{
    if *pos <= src.len() && 2 <= src.len() - *pos {
        let p = *pos;
        let b0 = src[p];
        let b1 = src[p + 1];
        *pos = p + 2;
        proof {
            lemma_be_val_unfold(src@, p as int, p + 2);
            lemma_be_val_unfold(src@, p as int, p + 1);
            assert(src@.subrange(p as int, p as int) =~= Seq::empty());
        }
        Ok((b0 as u16) * 0x100 + (b1 as u16))
    } else {
        Err(Error::Io)
    }
}

/// Read a 4-byte big-endian integer.
pub fn read_u32_be(src: &Vec<u8>, pos: &mut usize) -> (r: Result<u32, Error>)
    ensures
        *old(pos) + 4 <= src@.len() ==> {
            &&& r is Ok
            &&& r->Ok_0 as nat == be_val(src@.subrange(*old(pos) as int, *old(pos) + 4))
            &&& *final(pos) == *old(pos) + 4
        },
        *old(pos) + 4 > src@.len() ==> r == Err::<u32, Error>(Error::Io) && *final(pos) == *old(
            pos,
        ),
{
    if *pos <= src.len() && 4 <= src.len() - *pos {
        let p = *pos;
        let b0 = src[p];
        let b1 = src[p + 1];
        let b2 = src[p + 2];
        let b3 = src[p + 3];
        *pos = p + 4;
        proof {
            lemma_be_val_unfold(src@, p as int, p + 4);
            lemma_be_val_unfold(src@, p as int, p + 3);
            lemma_be_val_unfold(src@, p as int, p + 2);
            lemma_be_val_unfold(src@, p as int, p + 1);
            assert(src@.subrange(p as int, p as int) =~= Seq::empty());
        }
        Ok(
            ((b0 as u32) * 0x1000000) + ((b1 as u32) * 0x10000) + ((b2 as u32) * 0x100) + (
            b3 as u32),
        )
    } else {
        Err(Error::Io)
    }
}

/// Read an 8-byte big-endian integer.
pub fn read_u64_be(src: &Vec<u8>, pos: &mut usize) -> (r: Result<u64, Error>)
    ensures
        *old(pos) + 8 <= src@.len() ==> {
            &&& r is Ok
            &&& r->Ok_0 as nat == be_val(src@.subrange(*old(pos) as int, *old(pos) + 8))
            &&& *final(pos) == *old(pos) + 8
        },
        *old(pos) + 8 > src@.len() ==> r == Err::<u64, Error>(Error::Io) && *final(pos) == *old(
            pos,
        ),
{
    if *pos <= src.len() && 8 <= src.len() - *pos {
        let p = *pos;
        let mut v: u64 = 0;
        let mut i: usize = 0;
        proof {
            assert(src@.subrange(p as int, p as int) =~= Seq::empty());
        }
        while i < 8
            invariant
                i <= 8,
                p + 8 <= src@.len(),
                src@.len() <= usize::MAX,
                v as nat == be_val(src@.subrange(p as int, p + i)),
                v < pow256(i as nat),
            decreases 8 - i,
        {
            proof {
                lemma_be_val_unfold(src@, p as int, p + i + 1);
                assert(pow256((i + 1) as nat) == 256 * pow256(i as nat));
                assert(pow256(0) == 1);
                assert(pow256(1) == 0x100);
                assert(pow256(2) == 0x10000);
                assert(pow256(3) == 0x1000000);
                assert(pow256(4) == 0x100000000);
                assert(pow256(5) == 0x10000000000);
                assert(pow256(6) == 0x1000000000000);
                assert(pow256(7) == 0x100000000000000);
                if i == 0 {
                    assert(pow256(i as nat) == 1);
                } else if i == 1 {
                    assert(pow256(i as nat) == 0x100);
                } else if i == 2 {
                    assert(pow256(i as nat) == 0x10000);
                } else if i == 3 {
                    assert(pow256(i as nat) == 0x1000000);
                } else if i == 4 {
                    assert(pow256(i as nat) == 0x100000000);
                } else if i == 5 {
                    assert(pow256(i as nat) == 0x10000000000);
                } else if i == 6 {
                    assert(pow256(i as nat) == 0x1000000000000);
                } else {
                    assert(pow256(i as nat) == 0x100000000000000);
                }
                assert(pow256(i as nat) <= 0x100000000000000);
            }
            v = v * 0x100 + (src[p + i] as u64);
            i = i + 1;
        }
        *pos = p + 8;
        Ok(v)
    } else {
        Err(Error::Io)
    }
}

/// Read a 4-byte little-endian integer.
pub fn read_u32_le(src: &Vec<u8>, pos: &mut usize) -> (r: Result<u32, Error>)
    ensures
        *old(pos) + 4 <= src@.len() ==> {
            &&& r is Ok
            &&& r->Ok_0 as nat == le_val(src@.subrange(*old(pos) as int, *old(pos) + 4))
            &&& *final(pos) == *old(pos) + 4
        },
        *old(pos) + 4 > src@.len() ==> r == Err::<u32, Error>(Error::Io) && *final(pos) == *old(
            pos,
        ),
{
    if *pos <= src.len() && 4 <= src.len() - *pos {
        let p = *pos;
        let b0 = src[p];
        let b1 = src[p + 1];
        let b2 = src[p + 2];
        let b3 = src[p + 3];
        *pos = p + 4;
        proof {
            lemma_le_val_unfold(src@, p as int, p + 4);
            lemma_le_val_unfold(src@, p + 1, p + 4);
            lemma_le_val_unfold(src@, p + 2, p + 4);
            lemma_le_val_unfold(src@, p + 3, p + 4);
            assert(src@.subrange(p + 4, p + 4) =~= Seq::empty());
        }
        Ok(
            (b0 as u32) + ((b1 as u32) * 0x100) + ((b2 as u32) * 0x10000) + ((b3 as u32)
                * 0x1000000),
        )
    } else {
        Err(Error::Io)
    }
}

/// Append the 2-byte big-endian form of `v` to the sink.
pub fn push_u16_be(dest: &mut Vec<u8>, v: u16)
    ensures
        final(dest)@ == old(dest)@ + be_bytes(v as nat, 2),
{
    let v1 = v / 0x100;
    dest.push((v1 % 0x100) as u8);
    dest.push((v % 0x100) as u8);
    proof {
        assert(be_bytes((v1 as nat) / 256, 0) =~= Seq::empty());
        assert(be_bytes(v1 as nat, 1) =~= seq![(v1 % 0x100) as u8]);
        assert(be_bytes(v as nat, 2) =~= seq![(v1 % 0x100) as u8, (v % 0x100) as u8]);
        assert(final(dest)@ =~= old(dest)@ + be_bytes(v as nat, 2));
    }
}

/// Append the 4-byte big-endian form of `v` to the sink.
pub fn push_u32_be(dest: &mut Vec<u8>, v: u32)
    ensures
        final(dest)@ == old(dest)@ + be_bytes(v as nat, 4),
{
    let v1 = v / 0x100;
    let v2 = v1 / 0x100;
    let v3 = v2 / 0x100;
    dest.push((v3 % 0x100) as u8);
    dest.push((v2 % 0x100) as u8);
    dest.push((v1 % 0x100) as u8);
    dest.push((v % 0x100) as u8);
    proof {
        assert(be_bytes((v3 as nat) / 256, 0) =~= Seq::empty());
        assert(be_bytes(v3 as nat, 1) =~= seq![(v3 % 0x100) as u8]);
        assert(be_bytes(v2 as nat, 2) =~= seq![(v3 % 0x100) as u8, (v2 % 0x100) as u8]);
        assert(be_bytes(v1 as nat, 3) =~= seq![
            (v3 % 0x100) as u8,
            (v2 % 0x100) as u8,
            (v1 % 0x100) as u8,
        ]);
        assert(be_bytes(v as nat, 4) =~= seq![
            (v3 % 0x100) as u8,
            (v2 % 0x100) as u8,
            (v1 % 0x100) as u8,
            (v % 0x100) as u8,
        ]);
        assert(final(dest)@ =~= old(dest)@ + be_bytes(v as nat, 4));
    }
}

/// Append the 8-byte big-endian form of `v` to the sink.
pub fn push_u64_be(dest: &mut Vec<u8>, v: u64)
    ensures
        final(dest)@ == old(dest)@ + be_bytes(v as nat, 8),
{
    let v1 = v / 0x100;
    let v2 = v1 / 0x100;
    let v3 = v2 / 0x100;
    let v4 = v3 / 0x100;
    let v5 = v4 / 0x100;
    let v6 = v5 / 0x100;
    let v7 = v6 / 0x100;
    dest.push((v7 % 0x100) as u8);
    dest.push((v6 % 0x100) as u8);
    dest.push((v5 % 0x100) as u8);
    dest.push((v4 % 0x100) as u8);
    dest.push((v3 % 0x100) as u8);
    dest.push((v2 % 0x100) as u8);
    dest.push((v1 % 0x100) as u8);
    dest.push((v % 0x100) as u8);
    proof {
        assert(be_bytes((v7 as nat) / 256, 0) =~= Seq::empty());
        assert(be_bytes(v7 as nat, 1) =~= seq![(v7 % 0x100) as u8]);
        assert(be_bytes(v6 as nat, 2) =~= seq![(v7 % 0x100) as u8, (v6 % 0x100) as u8]);
        assert(be_bytes(v5 as nat, 3) =~= seq![
            (v7 % 0x100) as u8,
            (v6 % 0x100) as u8,
            (v5 % 0x100) as u8,
        ]);
        assert(be_bytes(v4 as nat, 4) =~= seq![
            (v7 % 0x100) as u8,
            (v6 % 0x100) as u8,
            (v5 % 0x100) as u8,
            (v4 % 0x100) as u8,
        ]);
        assert(be_bytes(v3 as nat, 5) =~= seq![
            (v7 % 0x100) as u8,
            (v6 % 0x100) as u8,
            (v5 % 0x100) as u8,
            (v4 % 0x100) as u8,
            (v3 % 0x100) as u8,
        ]);
        assert(be_bytes(v2 as nat, 6) =~= seq![
            (v7 % 0x100) as u8,
            (v6 % 0x100) as u8,
            (v5 % 0x100) as u8,
            (v4 % 0x100) as u8,
            (v3 % 0x100) as u8,
            (v2 % 0x100) as u8,
        ]);
        assert(be_bytes(v1 as nat, 7) =~= seq![
            (v7 % 0x100) as u8,
            (v6 % 0x100) as u8,
            (v5 % 0x100) as u8,
            (v4 % 0x100) as u8,
            (v3 % 0x100) as u8,
            (v2 % 0x100) as u8,
            (v1 % 0x100) as u8,
        ]);
        assert(be_bytes(v as nat, 8) =~= seq![
            (v7 % 0x100) as u8,
            (v6 % 0x100) as u8,
            (v5 % 0x100) as u8,
            (v4 % 0x100) as u8,
            (v3 % 0x100) as u8,
            (v2 % 0x100) as u8,
            (v1 % 0x100) as u8,
            (v % 0x100) as u8,
        ]);
        assert(final(dest)@ =~= old(dest)@ + be_bytes(v as nat, 8));
    }
}

/// Append the 4-byte little-endian form of `v` to the sink.
pub fn push_u32_le(dest: &mut Vec<u8>, v: u32)
    ensures
        final(dest)@ == old(dest)@ + le_bytes(v as nat, 4),
{
    let v1 = v / 0x100;
    let v2 = v1 / 0x100;
    let v3 = v2 / 0x100;
    dest.push((v % 0x100) as u8);
    dest.push((v1 % 0x100) as u8);
    dest.push((v2 % 0x100) as u8);
    dest.push((v3 % 0x100) as u8);
    proof {
        assert(le_bytes((v3 as nat) / 256, 0) =~= Seq::empty());
        assert(le_bytes(v3 as nat, 1) =~= seq![(v3 % 0x100) as u8]);
        assert(le_bytes(v2 as nat, 2) =~= seq![(v2 % 0x100) as u8, (v3 % 0x100) as u8]);
        assert(le_bytes(v1 as nat, 3) =~= seq![
            (v1 % 0x100) as u8,
            (v2 % 0x100) as u8,
            (v3 % 0x100) as u8,
        ]);
        assert(le_bytes(v as nat, 4) =~= seq![
            (v % 0x100) as u8,
            (v1 % 0x100) as u8,
            (v2 % 0x100) as u8,
            (v3 % 0x100) as u8,
        ]);
        assert(final(dest)@ =~= old(dest)@ + le_bytes(v as nat, 4));
    }
}

/// Turn an end-of-source failure into a clean `None`, keeping every other
/// outcome as it is.
pub fn or_eof<T>(x: Result<T, Error>) -> (r: Result<Option<T>, Error>)
    ensures
        x is Ok ==> r is Ok && r->Ok_0 is Some && r->Ok_0->0 == x->Ok_0,
        x == Err::<T, Error>(Error::Io) ==> r is Ok && r->Ok_0 is None,
        x is Err && x->Err_0 != Error::Io ==> r is Err && r->Err_0 == x->Err_0,
{
    match x {
        Ok(t) => Ok(Some(t)),
        Err(Error::Io) => Ok(None),
        Err(e) => Err(e),
    }
}

/// The character strings of a sequence of owned strings.
pub open spec fn strs_view(v: Seq<String>) -> Seq<Seq<char>> {
    Seq::new(v.len(), |i| v[i]@)
}

/// Relies on `String::from_utf8`: it succeeds exactly on valid UTF-8 input,
/// and the returned string holds the characters those bytes encode.
#[verifier::external_body]
fn bytes_to_string(bytes: Vec<u8>) -> (r: Option<String>)
    ensures
        r is Some <==> valid_utf8(bytes@),
        r is Some ==> r->0@ == decode_utf8(bytes@),
{
    String::from_utf8(bytes).ok()
}

/// The chunked byte form of one tag: full chunks of 127 bytes, then one
/// terminal chunk whose length byte carries the high bit.
pub open spec fn spec_encode_tag(b: Seq<u8>) -> Seq<u8>
    decreases b.len(),
{
    if b.len() > 127 {
        seq![127u8] + b.take(127) + spec_encode_tag(b.skip(127))
    } else {
        seq![(0x80 + b.len()) as u8] + b
    }
}

/// The byte encoding of a sequence of tags, in the given order, closed by the
/// end-of-set byte `0x00`.
pub open spec fn spec_encode_tags(ts: Seq<Seq<char>>) -> Seq<u8>
    decreases ts.len(),
{
    if ts.len() == 0 {
        seq![0u8]
    } else {
        spec_encode_tag(encode_utf8(ts.first())) + spec_encode_tags(ts.drop_first())
    }
}

/// What decoding a tag payload yields, byte for byte: `cur` holds the bytes of
/// the tag currently being assembled. A length byte below `0x80` extends the
/// current tag, one at `0x80` or above closes it, and `0x00` closes the set;
/// a payload that ends early reads as `Io`, a closed tag that is not UTF-8 as
/// `Utf8`.
pub open spec fn spec_decode_tags(bytes: Seq<u8>, cur: Seq<u8>) -> Result<Seq<Seq<char>>, Error>
    decreases bytes.len(),
{
    if bytes.len() == 0 {
        Err(Error::Io)
    } else {
        let b = bytes.first();
        let rest = bytes.drop_first();
        if b == 0 {
            Ok(Seq::empty())
        } else if b < 0x80 {
            if rest.len() < b {
                Err(Error::Io)
            } else {
                spec_decode_tags(rest.skip(b as int), cur + rest.take(b as int))
            }
        } else {
            let n = b - 0x80;
            if rest.len() < n {
                Err(Error::Io)
            } else {
                let tag = cur + rest.take(n as int);
                if !valid_utf8(tag) {
                    Err(Error::Utf8)
                } else {
                    match spec_decode_tags(rest.skip(n as int), Seq::empty()) {
                        Ok(ts) => Ok(seq![decode_utf8(tag)] + ts),
                        Err(e) => Err(e),
                    }
                }
            }
        }
    }
}

/// Append the chunked byte form of one tag's bytes to the sink.
fn encode_tag_bytes(tb: &Vec<u8>, dest: &mut Vec<u8>)
    ensures
        final(dest)@ == old(dest)@ + spec_encode_tag(tb@),
{
    let tlen = tb.len();
    proof {
        assert(tb@.skip(0) =~= tb@);
    }
    let mut off: usize = 0;
    while tlen - off > 127
        invariant
            off <= tlen,
            tlen == tb@.len(),
            dest@ + spec_encode_tag(tb@.skip(off as int)) == old(dest)@ + spec_encode_tag(tb@),
        decreases tlen - off,
    {
        let ghost pre = dest@;
        dest.push(127u8);
        let mut p = off;
        passthrough(tb, &mut p, dest, 127);
        proof {
            assert(tb@.skip(off as int).take(127) =~= tb@.subrange(off as int, off + 127));
            assert(tb@.skip(off as int).skip(127) =~= tb@.skip(off + 127));
            assert(dest@ =~= pre + (seq![127u8] + tb@.skip(off as int).take(127)));
            assert(dest@ + spec_encode_tag(tb@.skip(off + 127)) =~= pre + spec_encode_tag(
                tb@.skip(off as int),
            ));
        }
        off = p;
    }
    let rem = tlen - off;
    let ghost pre = dest@;
    dest.push(0x80u8 + rem as u8);
    let mut p = off;
    passthrough(tb, &mut p, dest, rem as u64);
    proof {
        assert(tb@.skip(off as int) =~= tb@.subrange(off as int, off + rem));
        assert(dest@ =~= pre + spec_encode_tag(tb@.skip(off as int)));
        assert(dest@ =~= old(dest)@ + spec_encode_tag(tb@));
    }
}

/// Append the byte encoding of the given tags to the sink, in the order in
/// which the tags are listed.
pub fn encode_tags(tags: &Vec<String>, dest: &mut Vec<u8>)
    ensures
        final(dest)@ == old(dest)@ + spec_encode_tags(strs_view(tags@)),
{
    let ghost full = strs_view(tags@);
    proof {
        assert(full.skip(0) =~= full);
    }
    let mut i: usize = 0;
    while i < tags.len()
        invariant
            i <= tags@.len(),
            full == strs_view(tags@),
            dest@ + spec_encode_tags(full.skip(i as int)) == old(dest)@ + spec_encode_tags(full),
        decreases tags@.len() - i,
    {
        let ghost pre = dest@;
        let tb = tags[i].as_str().as_bytes_vec();
        encode_tag_bytes(&tb, dest);
        proof {
            let tail = full.skip(i as int);
            assert(tail.first() == tags@[i as int]@);
            assert(tail.drop_first() =~= full.skip(i + 1));
            assert(dest@ + spec_encode_tags(full.skip(i + 1)) =~= pre + spec_encode_tags(tail));
        }
        i = i + 1;
    }
    proof {
        assert(full.skip(i as int) =~= Seq::<Seq<char>>::empty());
    }
    dest.push(0u8);
    proof {
        assert(final(dest)@ =~= old(dest)@ + spec_encode_tags(full));
    }
}

/// Decode the tag payload that starts at `pos`, reading up to and past its
/// terminator; bytes after the terminator are left untouched.
pub fn decode_tags(src: &Vec<u8>, pos: &mut usize) -> (r: Result<Vec<String>, Error>)
    requires
        *old(pos) <= src@.len(),
    ensures
        match spec_decode_tags(src@.skip(*old(pos) as int), Seq::<u8>::empty()) {
            Ok(ts) => r is Ok && strs_view(r->Ok_0@) == ts,
            Err(e) => r is Err && r->Err_0 == e,
        },
{
    let ghost whole = src@.skip(*pos as int);
    let srclen = src.len();
    let mut tags: Vec<String> = Vec::new();
    let mut cur: Vec<u8> = Vec::new();
    proof {
        assert(strs_view(tags@) =~= Seq::<Seq<char>>::empty());
        let sd = spec_decode_tags(whole, Seq::<u8>::empty());
        if sd is Ok {
            assert(strs_view(tags@) + sd->Ok_0 =~= sd->Ok_0);
        }
    }
    loop
        invariant
            *pos <= srclen,
            srclen == src@.len(),
            whole == src@.skip(*old(pos) as int),
            spec_decode_tags(whole, Seq::<u8>::empty()) == (match spec_decode_tags(
                src@.skip(*pos as int),
                cur@,
            ) {
                Ok(ts) => Ok::<Seq<Seq<char>>, Error>(strs_view(tags@) + ts),
                Err(e) => Err::<Seq<Seq<char>>, Error>(e),
            }),
        decreases src@.len() - *pos,
    {
        let ghost p0 = *pos as int;
        let ghost cur0 = cur@;
        let ghost tags0 = tags@;
        let b = match read_byte(src, pos) {
            Ok(b) => b,
            Err(_) => {
                proof {
                    assert(src@.skip(p0).len() == 0);
                }
                return Err(Error::Io);
            },
        };
        proof {
            assert(src@.skip(p0).first() == src@[p0]);
            assert(src@.skip(p0).drop_first() =~= src@.skip(p0 + 1));
        }
        if b == 0 {
            proof {
                assert(spec_decode_tags(src@.skip(p0), cur0) == Ok::<Seq<Seq<char>>, Error>(
                    Seq::empty(),
                ));
                assert(strs_view(tags@) + Seq::<Seq<char>>::empty() =~= strs_view(tags@));
            }
            return Ok(tags);
        } else if b < 0x80 {
            let copied = passthrough(src, pos, &mut cur, b as u64);
            if copied < b as u64 {
                proof {
                    assert(src@.skip(p0 + 1).len() < b);
                }
                return Err(Error::Io);
            }
            proof {
                let rest = src@.skip(p0 + 1);
                assert(rest.take(b as int) =~= src@.subrange(p0 + 1, p0 + 1 + b));
                assert(cur@ =~= cur0 + rest.take(b as int));
                assert(rest.skip(b as int) =~= src@.skip(*pos as int));
            }
        } else {
            let n = b - 0x80;
            let copied = passthrough(src, pos, &mut cur, n as u64);
            if copied < n as u64 {
                proof {
                    assert(src@.skip(p0 + 1).len() < n);
                }
                return Err(Error::Io);
            }
            proof {
                let rest = src@.skip(p0 + 1);
                assert(rest.take(n as int) =~= src@.subrange(p0 + 1, p0 + 1 + n));
                assert(cur@ =~= cur0 + rest.take(n as int));
                assert(rest.skip(n as int) =~= src@.skip(*pos as int));
            }
            let ghost tagbytes = cur@;
            let st = match bytes_to_string(cur) {
                Some(st) => st,
                None => {
                    return Err(Error::Utf8);
                },
            };
            tags.push(st);
            cur = Vec::new();
            proof {
                assert(strs_view(tags@) =~= strs_view(tags0) + seq![decode_utf8(tagbytes)]);
                let sd = spec_decode_tags(src@.skip(*pos as int), Seq::<u8>::empty());
                if sd is Ok {
                    assert(strs_view(tags0) + (seq![decode_utf8(tagbytes)] + sd->Ok_0)
                        =~= strs_view(tags@) + sd->Ok_0);
                }
            }
        }
    }
}

/// Strict lexicographic order on byte strings.
pub open spec fn lex_lt(a: Seq<u8>, b: Seq<u8>) -> bool
    decreases a.len(),
{
    if b.len() == 0 {
        false
    } else if a.len() == 0 {
        true
    } else if a.first() < b.first() {
        true
    } else if a.first() > b.first() {
        false
    } else {
        lex_lt(a.drop_first(), b.drop_first())
    }
}

/// Order on tags: by the bytes of their UTF-8 forms.
pub open spec fn tag_lt(a: Seq<char>, b: Seq<char>) -> bool {
    lex_lt(encode_utf8(a), encode_utf8(b))
}

/// A tag list in strictly ascending order; such a list holds no duplicates.
pub open spec fn sorted_tags(ts: Seq<Seq<char>>) -> bool {
    forall|i: int, j: int| 0 <= i < j < ts.len() ==> tag_lt(ts[i], ts[j])
}

/// Where one tag lands in an ascending tag list: before the first larger
/// entry, or nowhere when an equal entry is already present.
pub open spec fn spec_insert_tag(ts: Seq<Seq<char>>, t: Seq<char>) -> Seq<Seq<char>>
    decreases ts.len(),
{
    if ts.len() == 0 {
        seq![t]
    } else if tag_lt(t, ts.first()) {
        seq![t] + ts
    } else if t == ts.first() {
        ts
    } else {
        seq![ts.first()] + spec_insert_tag(ts.drop_first(), t)
    }
}

/// The normal form of a tag list: sorted by byte value, duplicates collapsed.
/// The bytes a writer emits are a function of this form alone.
pub open spec fn spec_normalize(ts: Seq<Seq<char>>) -> Seq<Seq<char>>
    decreases ts.len(),
{
    if ts.len() == 0 {
        Seq::empty()
    } else {
        spec_insert_tag(spec_normalize(ts.drop_last()), ts.last())
    }
}

pub proof fn lemma_lex_lt_irreflexive(a: Seq<u8>)
    ensures
        !lex_lt(a, a),
    decreases a.len(),
{
    if a.len() > 0 {
        lemma_lex_lt_irreflexive(a.drop_first());
    }
}

pub proof fn lemma_lex_lt_asymmetric(a: Seq<u8>, b: Seq<u8>)
    requires
        lex_lt(a, b),
    ensures
        !lex_lt(b, a),
    decreases a.len(),
{
    if a.len() > 0 && b.len() > 0 && a.first() == b.first() {
        lemma_lex_lt_asymmetric(a.drop_first(), b.drop_first());
    }
}

pub proof fn lemma_lex_lt_transitive(a: Seq<u8>, b: Seq<u8>, c: Seq<u8>)
    requires
        lex_lt(a, b),
        lex_lt(b, c),
    ensures
        lex_lt(a, c),
    decreases a.len(),
{
    if a.len() > 0 && b.len() > 0 && c.len() > 0 && a.first() == b.first() && b.first()
        == c.first() {
        lemma_lex_lt_transitive(a.drop_first(), b.drop_first(), c.drop_first());
    }
}

pub proof fn lemma_tag_lt_transitive(a: Seq<char>, b: Seq<char>, c: Seq<char>)
    requires
        tag_lt(a, b),
        tag_lt(b, c),
    ensures
        tag_lt(a, c),
{
    lemma_lex_lt_transitive(encode_utf8(a), encode_utf8(b), encode_utf8(c));
}

/// Two tags with the same UTF-8 bytes are the same tag.
pub proof fn lemma_encode_utf8_injective(a: Seq<char>, b: Seq<char>)
    requires
        encode_utf8(a) == encode_utf8(b),
    ensures
        a == b,
{
    vstd::utf8::encode_utf8_decode_utf8(a);
    vstd::utf8::encode_utf8_decode_utf8(b);
}

proof fn lemma_contains_concat<A>(s: Seq<A>, t: Seq<A>, x: A)
    ensures
        (s + t).contains(x) <==> s.contains(x) || t.contains(x),
{
    if (s + t).contains(x) {
        let k = choose|k: int| 0 <= k < (s + t).len() && (s + t)[k] == x;
        if k < s.len() {
            assert(s[k] == x);
        } else {
            assert(t[k - s.len()] == x);
        }
    }
    if s.contains(x) {
        let k = choose|k: int| 0 <= k < s.len() && s[k] == x;
        assert((s + t)[k] == x);
    }
    if t.contains(x) {
        let k = choose|k: int| 0 <= k < t.len() && t[k] == x;
        assert((s + t)[k + s.len()] == x);
    }
}

/// Inserting into an ascending list keeps it ascending, and adds exactly the
/// inserted tag to its contents.
pub proof fn lemma_insert_tag_sorted(ts: Seq<Seq<char>>, t: Seq<char>)
    requires
        sorted_tags(ts),
    ensures
        sorted_tags(spec_insert_tag(ts, t)),
        forall|x: Seq<char>|
            #[trigger] spec_insert_tag(ts, t).contains(x) <==> ts.contains(x) || x == t,
    decreases ts.len(),
{
    let r = spec_insert_tag(ts, t);
    if ts.len() == 0 {
        assert(r =~= seq![t]);
        assert(r[0] == t);
        assert(forall|x: Seq<char>| #[trigger] r.contains(x) <==> ts.contains(x) || x == t) by {
            assert(forall|x: Seq<char>| #[trigger] r.contains(x) ==> r[0] == x);
        }
    } else if tag_lt(t, ts.first()) {
        assert(r =~= seq![t] + ts);
        assert(forall|i: int, j: int| 0 <= i < j < r.len() ==> tag_lt(r[i], r[j])) by {
            assert(forall|j: int|
                0 < j < r.len() ==> r[j] == ts[j - 1] && #[trigger] tag_lt(r[0], r[j])) by {
                assert(forall|j: int| 0 < j < r.len() ==> r[j] == ts[j - 1]);
                assert forall|j: int| 0 < j < r.len() implies #[trigger] tag_lt(r[0], r[j]) by {
                    if j > 1 {
                        lemma_tag_lt_transitive(t, ts.first(), ts[j - 1]);
                    }
                }
            }
        }
        assert(forall|x: Seq<char>| #[trigger] r.contains(x) <==> ts.contains(x) || x == t) by {
            assert forall|x: Seq<char>| true implies (#[trigger] r.contains(x) <==> ts.contains(x)
                || x == t) by {
                lemma_contains_concat(seq![t], ts, x);
                assert(seq![t].contains(x) <==> x == t) by {
                    if seq![t].contains(x) {
                        assert(seq![t][0] == x);
                    }
                    if x == t {
                        assert(seq![t][0] == x);
                    }
                }
            }
        }
    } else if t == ts.first() {
        assert(r == ts);
        assert(forall|x: Seq<char>| #[trigger] r.contains(x) <==> ts.contains(x) || x == t) by {
            assert(ts[0] == t);
        }
    } else {
        let d = ts.drop_first();
        assert(sorted_tags(d)) by {
            assert(forall|i: int, j: int|
                0 <= i < j < d.len() ==> d[i] == ts[i + 1] && d[j] == ts[j + 1] && #[trigger
                ] tag_lt(d[i], d[j]));
        }
        lemma_insert_tag_sorted(d, t);
        let rd = spec_insert_tag(d, t);
        assert(r == seq![ts.first()] + rd);
        // the head is below everything in the tail: every tail entry is an old
        // entry after the head, or the inserted tag, which the head precedes
        assert(tag_lt(ts.first(), t)) by {
            if tag_lt(ts.first(), t) {
            } else {
                // not below and not equal: t precedes the head or equals it,
                // and both were ruled out by the branch taken
                lemma_lex_lt_total(encode_utf8(t), encode_utf8(ts.first()));
                if encode_utf8(t) == encode_utf8(ts.first()) {
                    lemma_encode_utf8_injective(t, ts.first());
                }
            }
        }
        assert(forall|i: int, j: int| 0 <= i < j < r.len() ==> tag_lt(r[i], r[j])) by {
            assert(forall|j: int| 0 < j < r.len() ==> r[j] == rd[j - 1]);
            assert forall|j: int| 0 < j < r.len() implies #[trigger] tag_lt(r[0], r[j]) by {
                assert(rd.contains(rd[j - 1]));
                let x = rd[j - 1];
                assert(d.contains(x) || x == t);
                if d.contains(x) {
                    let k = choose|k: int| 0 <= k < d.len() && d[k] == x;
                    assert(ts[k + 1] == x);
                    assert(tag_lt(ts[0], ts[k + 1]));
                }
            }
            assert(forall|i: int, j: int|
                0 < i < j < r.len() ==> r[i] == rd[i - 1] && r[j] == rd[j - 1] && #[trigger] tag_lt(
                    r[i],
                    r[j],
                ));
        }
        assert(forall|x: Seq<char>| #[trigger] r.contains(x) <==> ts.contains(x) || x == t) by {
            assert forall|x: Seq<char>| true implies (#[trigger] r.contains(x) <==> ts.contains(x)
                || x == t) by {
                lemma_contains_concat(seq![ts.first()], rd, x);
                lemma_contains_concat(seq![ts.first()], d, x);
                assert(seq![ts.first()] + d =~= ts);
                assert(seq![ts.first()].contains(x) <==> x == ts.first()) by {
                    if seq![ts.first()].contains(x) {
                        assert(seq![ts.first()][0] == x);
                    }
                    if x == ts.first() {
                        assert(seq![ts.first()][0] == x);
                    }
                }
            }
        }
    }
}

/// Of two distinct byte strings, one precedes the other.
pub proof fn lemma_lex_lt_total(a: Seq<u8>, b: Seq<u8>)
    ensures
        lex_lt(a, b) || lex_lt(b, a) || a == b,
    decreases a.len(),
{
    if a.len() > 0 && b.len() > 0 && a.first() == b.first() {
        lemma_lex_lt_total(a.drop_first(), b.drop_first());
        if !lex_lt(a, b) && !lex_lt(b, a) {
            assert(a.drop_first() == b.drop_first());
            assert forall|k: int| 0 <= k < a.len() implies a[k] == b[k] by {
                if k > 0 {
                    assert(a.drop_first()[k - 1] == b.drop_first()[k - 1]);
                }
            }
            assert(a =~= b);
        }
    } else if a.len() == 0 && b.len() == 0 {
        assert(a =~= b);
    }
}

/// The normal form of any tag list is ascending.
pub proof fn lemma_normalize_sorted(ts: Seq<Seq<char>>)
    ensures
        sorted_tags(spec_normalize(ts)),
    decreases ts.len(),
{
    if ts.len() > 0 {
        lemma_normalize_sorted(ts.drop_last());
        lemma_insert_tag_sorted(spec_normalize(ts.drop_last()), ts.last());
    }
}

/// The normal form of a tag list holds exactly the tags of the list: the two
/// are equal as sets.
pub proof fn lemma_normalize_contains(ts: Seq<Seq<char>>)
    ensures
        forall|x: Seq<char>| #[trigger] spec_normalize(ts).contains(x) <==> ts.contains(x),
    decreases ts.len(),
{
    if ts.len() > 0 {
        lemma_normalize_contains(ts.drop_last());
        lemma_normalize_sorted(ts.drop_last());
        lemma_insert_tag_sorted(spec_normalize(ts.drop_last()), ts.last());
        assert forall|x: Seq<char>| true implies (#[trigger] spec_normalize(ts).contains(x)
            <==> ts.contains(x)) by {
            assert(ts =~= ts.drop_last().push(ts.last()));
            lemma_contains_concat(ts.drop_last(), seq![ts.last()], x);
            assert(ts.drop_last() + seq![ts.last()] =~= ts);
            assert(seq![ts.last()].contains(x) <==> x == ts.last()) by {
                if seq![ts.last()].contains(x) {
                    assert(seq![ts.last()][0] == x);
                }
                if x == ts.last() {
                    assert(seq![ts.last()][0] == x);
                }
            }
        }
    }
}

/// Three-way comparison of byte strings: 0 when `a` precedes `b`, 1 when they
/// are equal, 2 when `b` precedes `a`.
fn lex_cmp(a: &Vec<u8>, b: &Vec<u8>) -> (r: u8)
    ensures
        r <= 2,
        r == 0 <==> lex_lt(a@, b@),
        r == 1 <==> a@ == b@,
        r == 2 <==> lex_lt(b@, a@),
{
    let alen = a.len();
    let blen = b.len();
    let mut i: usize = 0;
    proof {
        assert(a@.skip(0) =~= a@);
        assert(b@.skip(0) =~= b@);
    }
    while i < alen && i < blen
        invariant
            i <= alen,
            i <= blen,
            alen == a@.len(),
            blen == b@.len(),
            lex_lt(a@, b@) == lex_lt(a@.skip(i as int), b@.skip(i as int)),
            lex_lt(b@, a@) == lex_lt(b@.skip(i as int), a@.skip(i as int)),
            (a@ == b@) <==> (a@.skip(i as int) == b@.skip(i as int)),
        decreases alen - i,
    {
        let x = a[i];
        let y = b[i];
        proof {
            assert(a@.skip(i as int).first() == a@[i as int]);
            assert(b@.skip(i as int).first() == b@[i as int]);
            assert(a@.skip(i as int).drop_first() =~= a@.skip(i + 1));
            assert(b@.skip(i as int).drop_first() =~= b@.skip(i + 1));
        }
        if x < y {
            return 0;
        } else if x > y {
            return 2;
        }
        proof {
            if a@.skip(i + 1) == b@.skip(i + 1) {
                assert forall|k: int|
                    0 <= k < a@.skip(i as int).len() implies a@.skip(i as int)[k] == b@.skip(
                    i as int,
                )[k] by {
                    if k > 0 {
                        assert(a@.skip(i + 1)[k - 1] == b@.skip(i + 1)[k - 1]);
                    }
                }
                assert(a@.skip(i as int) =~= b@.skip(i as int));
            }
            if a@.skip(i as int) == b@.skip(i as int) {
                assert(a@.skip(i + 1) =~= b@.skip(i + 1));
            }
        }
        i = i + 1;
    }
    if alen == blen {
        proof {
            assert(a@.skip(i as int) =~= b@.skip(i as int));
            lemma_lex_lt_irreflexive(a@);
        }
        1
    } else if alen < blen {
        proof {
            assert(a@.skip(i as int).len() == 0);
            assert(b@.skip(i as int).len() > 0);
            assert(a@.len() != b@.len());
        }
        0
    } else {
        proof {
            assert(b@.skip(i as int).len() == 0);
            assert(a@.skip(i as int).len() > 0);
        }
        2
    }
}

/// Where the scan of an ascending list stops, the spec-level insertion puts
/// the tag, or finds it already present.
proof fn lemma_insert_tag_at(ts: Seq<Seq<char>>, t: Seq<char>, j: int)
    requires
        sorted_tags(ts),
        0 <= j <= ts.len(),
        forall|k: int| 0 <= k < j ==> tag_lt(#[trigger] ts[k], t),
        j < ts.len() ==> (t == ts[j] || tag_lt(t, ts[j])),
    ensures
        j < ts.len() && t == ts[j] ==> spec_insert_tag(ts, t) == ts,
        !(j < ts.len() && t == ts[j]) ==> spec_insert_tag(ts, t) == ts.insert(j, t),
    decreases ts.len(),
{
    if ts.len() == 0 {
        assert(spec_insert_tag(ts, t) =~= ts.insert(0, t));
    } else if j == 0 {
        if t == ts[0] {
            assert(!tag_lt(t, ts.first())) by {
                lemma_lex_lt_irreflexive(encode_utf8(t));
            }
        } else {
            assert(tag_lt(t, ts.first()));
            assert(spec_insert_tag(ts, t) =~= ts.insert(0, t));
        }
    } else {
        // j > 0: the head precedes t, so insertion recurses past it
        assert(tag_lt(ts[0], t));
        assert(!tag_lt(t, ts.first())) by {
            if tag_lt(t, ts.first()) {
                lemma_lex_lt_asymmetric(encode_utf8(ts[0]), encode_utf8(t));
            }
        }
        assert(t != ts.first()) by {
            if t == ts.first() {
                lemma_lex_lt_irreflexive(encode_utf8(t));
            }
        }
        let d = ts.drop_first();
        assert(sorted_tags(d)) by {
            assert(forall|i: int, k: int|
                0 <= i < k < d.len() ==> d[i] == ts[i + 1] && d[k] == ts[k + 1] && #[trigger
                ] tag_lt(d[i], d[k]));
        }
        assert(forall|k: int| 0 <= k < j - 1 ==> tag_lt(#[trigger] d[k], t)) by {
            assert(forall|k: int| 0 <= k < j - 1 ==> d[k] == ts[k + 1]);
        }
        lemma_insert_tag_at(d, t, j - 1);
        if j < ts.len() && t == ts[j] {
            assert(d[j - 1] == ts[j]);
            assert(spec_insert_tag(ts, t) =~= seq![ts.first()] + d);
            assert(seq![ts.first()] + d =~= ts);
        } else {
            assert(spec_insert_tag(ts, t) =~= seq![ts.first()] + d.insert(j - 1, t));
            ts.insert_ensures(j, t);
            d.insert_ensures(j - 1, t);
            assert(seq![ts.first()] + d.insert(j - 1, t) =~= ts.insert(j, t));
        }
    }
}

/// Insert one tag into an ascending list, keeping it ascending and dropping
/// the tag when an equal one is already present.
fn insert_tag(out: &mut Vec<String>, t: String)
    requires
        sorted_tags(strs_view(old(out)@)),
    ensures
        strs_view(final(out)@) == spec_insert_tag(strs_view(old(out)@), t@),
        sorted_tags(strs_view(final(out)@)),
{
    proof {
        lemma_insert_tag_sorted(strs_view(out@), t@);
    }
    let tb = t.as_str().as_bytes_vec();
    let outlen = out.len();
    let mut j: usize = 0;
    loop
        invariant
            j <= outlen,
            outlen == out@.len(),
            sorted_tags(strs_view(out@)),
            out@ == old(out)@,
            tb@ == encode_utf8(t@),
            forall|k: int| 0 <= k < j ==> tag_lt(#[trigger] strs_view(out@)[k], t@),
        ensures
            j <= outlen,
            out@ == old(out)@,
            forall|k: int| 0 <= k < j ==> tag_lt(#[trigger] strs_view(out@)[k], t@),
            j < outlen ==> tag_lt(t@, strs_view(out@)[j as int]) && t@ != strs_view(out@)[j as int],
        decreases outlen - j,
    {
        if j >= outlen {
            break ;
        }
        let ob = out[j].as_str().as_bytes_vec();
        let c = lex_cmp(&ob, &tb);
        if c == 0 {
            proof {
                assert(tag_lt(strs_view(out@)[j as int], t@));
            }
            j = j + 1;
        } else if c == 1 {
            proof {
                lemma_encode_utf8_injective(strs_view(out@)[j as int], t@);
                lemma_insert_tag_at(strs_view(out@), t@, j as int);
            }
            return ;
        } else {
            proof {
                assert(tag_lt(t@, strs_view(out@)[j as int]));
                assert(t@ != strs_view(out@)[j as int]) by {
                    lemma_lex_lt_irreflexive(encode_utf8(t@));
                }
            }
            break ;
        }
    }
    proof {
        lemma_insert_tag_at(strs_view(out@), t@, j as int);
    }
    let ghost pre = out@;
    out.insert(j, t);
    proof {
        pre.insert_ensures(j as int, t);
        strs_view(pre).insert_ensures(j as int, t@);
        assert(strs_view(out@) =~= strs_view(pre).insert(j as int, t@));
    }
}

/// The normal form of a list of tags: sorted by the bytes of their UTF-8
/// forms, duplicates collapsed. Writers emit tags in this form, so the bytes
/// they produce depend only on the set of tags given.
pub fn normalize_tags(tags: &Vec<String>) -> (r: Vec<String>)
    ensures
        strs_view(r@) == spec_normalize(strs_view(tags@)),
        sorted_tags(strs_view(r@)),
        forall|x: Seq<char>| #[trigger] strs_view(r@).contains(x) <==> strs_view(tags@).contains(x),
{
    proof {
        lemma_normalize_sorted(strs_view(tags@));
        lemma_normalize_contains(strs_view(tags@));
    }
    let mut out: Vec<String> = Vec::new();
    let mut i: usize = 0;
    proof {
        assert(strs_view(out@) =~= Seq::<Seq<char>>::empty());
        assert(strs_view(tags@).take(0) =~= Seq::<Seq<char>>::empty());
    }
    while i < tags.len()
        invariant
            i <= tags@.len(),
            sorted_tags(strs_view(out@)),
            strs_view(out@) == spec_normalize(strs_view(tags@).take(i as int)),
        decreases tags@.len() - i,
    {
        let t = tags[i].clone();
        proof {
            let v = strs_view(tags@);
            assert(v.take(i + 1).drop_last() =~= v.take(i as int));
            assert(v.take(i + 1).last() == v[i as int]);
            assert(t@ == v[i as int]);
        }
        insert_tag(&mut out, t);
        i = i + 1;
    }
    proof {
        assert(strs_view(tags@).take(tags@.len() as int) =~= strs_view(tags@));
    }
    out
}

/// Decoding an encoded tag list, with anything at all after it, gives back
/// exactly that list: the heart of the round trip from written tags to read
/// tags.
pub proof fn lemma_decode_one_encoded_tag(b: Seq<u8>, tail: Seq<u8>, cur: Seq<u8>)
    ensures
        spec_decode_tags(spec_encode_tag(b) + tail, cur) == (if valid_utf8(cur + b) {
            match spec_decode_tags(tail, Seq::<u8>::empty()) {
                Ok(ts) => Ok::<Seq<Seq<char>>, Error>(seq![decode_utf8(cur + b)] + ts),
                Err(e) => Err::<Seq<Seq<char>>, Error>(e),
            }
        } else {
            Err::<Seq<Seq<char>>, Error>(Error::Utf8)
        }),
    decreases b.len(),
{
    let whole = spec_encode_tag(b) + tail;
    let rest = whole.drop_first();
    if b.len() > 127 {
        assert(whole.first() == 127);
        assert(rest =~= b.take(127) + (spec_encode_tag(b.skip(127)) + tail));
        assert(rest.take(127) =~= b.take(127));
        assert(rest.skip(127) =~= spec_encode_tag(b.skip(127)) + tail);
        lemma_decode_one_encoded_tag(b.skip(127), tail, cur + b.take(127));
        assert((cur + b.take(127)) + b.skip(127) =~= cur + b);
    } else {
        assert(whole.first() == 0x80 + b.len());
        assert(rest =~= b + tail);
        assert(rest.take(b.len() as int) =~= b);
        assert(rest.skip(b.len() as int) =~= tail);
    }
}

/// Decoding the encoding of a tag list, with anything at all after the
/// end-of-set byte, yields exactly that list.
pub proof fn lemma_decode_encode_tags(ts: Seq<Seq<char>>, tail: Seq<u8>)
    ensures
        spec_decode_tags(spec_encode_tags(ts) + tail, Seq::<u8>::empty()) == Ok::<
            Seq<Seq<char>>,
            Error,
        >(ts),
    decreases ts.len(),
{
    if ts.len() == 0 {
        let whole = spec_encode_tags(ts) + tail;
        assert(whole.first() == 0);
        assert(spec_decode_tags(whole, Seq::<u8>::empty()) == Ok::<Seq<Seq<char>>, Error>(
            Seq::empty(),
        ));
        assert(ts =~= Seq::<Seq<char>>::empty());
    } else {
        let b = encode_utf8(ts.first());
        let tail2 = spec_encode_tags(ts.drop_first()) + tail;
        assert(spec_encode_tags(ts) + tail =~= spec_encode_tag(b) + tail2);
        lemma_decode_one_encoded_tag(b, tail2, Seq::<u8>::empty());
        lemma_decode_encode_tags(ts.drop_first(), tail);
        vstd::utf8::encode_utf8_valid_utf8(ts.first());
        vstd::utf8::encode_utf8_decode_utf8(ts.first());
        assert(Seq::<u8>::empty() + b =~= b);
        assert(seq![ts.first()] + ts.drop_first() =~= ts);
    }
}

} // verus!
