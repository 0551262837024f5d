//! Byte-level building blocks: little-endian integers and in-place writes
//! into fixed buffers.
use vstd::prelude::*;

verus! {

/// The value of four bytes read as a little-endian unsigned integer.
pub open spec fn u32_from_le(b: Seq<u8>) -> u32
    recommends
        b.len() == 4,
{
    (b[0] as int + 0x100 * (b[1] as int) + 0x1_0000 * (b[2] as int) + 0x100_0000 * (b[3] as int)) as u32
}

/// The four bytes of `x`, least significant first.
pub open spec fn u32_to_le(x: u32) -> Seq<u8> {
    seq![
        (x % 0x100) as u8,
        (x / 0x100 % 0x100) as u8,
        (x / 0x1_0000 % 0x100) as u8,
        (x / 0x100_0000) as u8,
    ]
}

/// `s` with the bytes from `at` on replaced by `patch`; the length of `s` is kept.
pub open spec fn overwrite(s: Seq<u8>, at: int, patch: Seq<u8>) -> Seq<u8>
    recommends
        0 <= at,
        at + patch.len() <= s.len(),
{
    s.subrange(0, at) + patch + s.subrange(at + patch.len(), s.len() as int)
}

/// A run of `n` zero bytes.
pub open spec fn zeros(n: nat) -> Seq<u8> {
    Seq::new(n, |i: int| 0u8)
}

/// Decoding is the inverse of encoding.
pub proof fn lemma_u32_le_round_trip(x: u32)
    ensures
        u32_to_le(x).len() == 4,
        u32_from_le(u32_to_le(x)) == x,
{
    assert(x == (x % 0x100) + 0x100 * (x / 0x100 % 0x100) + 0x1_0000 * (x / 0x1_0000 % 0x100)
        + 0x100_0000 * (x / 0x100_0000)) by (bit_vector);
    assert(x / 0x100_0000 < 0x100) by (bit_vector);
}

/// Reads the little-endian integer held in the four bytes of `buf` from `at` on.
pub fn read_u32_le(buf: &[u8], at: usize) -> (x: u32)
    requires
        at + 4 <= buf.len(),
    ensures
        x == u32_from_le(buf@.subrange(at as int, at + 4)),
{
    let b0: u32 = buf[at] as u32;
    let b1: u32 = buf[at + 1] as u32;
    let b2: u32 = buf[at + 2] as u32;
    let b3: u32 = buf[at + 3] as u32;
    b0 + 0x100 * b1 + 0x1_0000 * b2 + 0x100_0000 * b3
}

/// Stores `x` little-endian in the four bytes of `buf` from `at` on.
pub fn write_u32_le(buf: &mut [u8], at: usize, x: u32)
    requires
        at + 4 <= old(buf).len(),
    ensures
        final(buf)@ == overwrite(old(buf)@, at as int, u32_to_le(x)),
{
    buf[at] = (x % 0x100) as u8;
    buf[at + 1] = (x / 0x100 % 0x100) as u8;
    buf[at + 2] = (x / 0x1_0000 % 0x100) as u8;
    buf[at + 3] = (x / 0x100_0000) as u8;
    assert(buf@ =~= overwrite(old(buf)@, at as int, u32_to_le(x)));
}

/// Copies `src` over the bytes of `dst` from `at` on.
pub fn copy_into(dst: &mut [u8], at: usize, src: &[u8])
    requires
        at + src.len() <= old(dst).len(),
    ensures
        final(dst)@ == overwrite(old(dst)@, at as int, src@),
{
    let n: usize = src.len();
    let mut i: usize = 0;
    while i < n
        invariant
            n == src.len(),
            i <= n,
            at + n <= dst.len(),
            dst.len() == old(dst).len(),
            dst@ == overwrite(old(dst)@, at as int, src@.subrange(0, i as int)),
        decreases n - i,
    {
        dst[at + i] = src[i];
        i += 1;
        assert(dst@ =~= overwrite(old(dst)@, at as int, src@.subrange(0, i as int)));
    }
    assert(src@.subrange(0, n as int) =~= src@);
}

/// Sets the bytes of `buf` from `from` up to `to` to zero.
pub fn zero_range(buf: &mut [u8], from: usize, to: usize)
    requires
        from <= to <= old(buf).len(),
    ensures
        final(buf)@ == overwrite(old(buf)@, from as int, zeros((to - from) as nat)),
{
    let mut i: usize = from;
    while i < to
        invariant
            from <= i <= to,
            to <= buf.len(),
            buf.len() == old(buf).len(),
            buf@ == overwrite(old(buf)@, from as int, zeros((i - from) as nat)),
        decreases to - i,
    {
        buf[i] = 0;
        i += 1;
        assert(buf@ =~= overwrite(old(buf)@, from as int, zeros((i - from) as nat)));
    }
}

/// `s` with the bytes from `from` up to `to` rotated right by `k` places:
/// the last `k` of them come first, the others follow in their order.
pub open spec fn rotated_right(s: Seq<u8>, from: int, to: int, k: int) -> Seq<u8>
    recommends
        0 <= from <= to <= s.len(),
        0 <= k <= to - from,
{
    s.subrange(0, from) + s.subrange(to - k, to) + s.subrange(from, to - k) + s.subrange(
        to,
        s.len() as int,
    )
}

/// Rotates the bytes of `buf` from `from` up to `to` right by `k` places, in
/// place.
pub fn rotate_right(buf: &mut [u8], from: usize, to: usize, k: usize)
    requires
        from <= to <= old(buf).len(),
        k <= to - from,
    ensures
        final(buf)@ == rotated_right(old(buf)@, from as int, to as int, k as int),
{
    let saved: Vec<u8> = vstd::slice::slice_to_vec(vstd::slice::slice_subrange(buf, to - k, to));
    let mut i: usize = to;
    while i > from + k
        invariant
            from + k <= i <= to,
            to <= buf.len(),
            buf.len() == old(buf).len(),
            buf@ == old(buf)@.subrange(0, i as int) + old(buf)@.subrange(i - k, to - k) + old(buf)@.subrange(
                to as int,
                old(buf).len() as int,
            ),
        decreases i,
    {
        let b: u8 = buf[i - 1 - k];
        buf[i - 1] = b;
        i -= 1;
        assert(buf@ =~= old(buf)@.subrange(0, i as int) + old(buf)@.subrange(i - k, to - k) + old(
            buf,
        )@.subrange(to as int, old(buf).len() as int));
    }
    copy_into(buf, from, saved.as_slice());
    assert(buf@ =~= rotated_right(old(buf)@, from as int, to as int, k as int));
}

} // verus!
