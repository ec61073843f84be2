use byteorder::{ByteOrder, LittleEndian};
use vstd::prelude::*;

verus! {

/// The 32-bit value whose little-endian bytes are `b0`, `b1`, `b2`, `b3`.
#[verifier::opaque]
pub open spec fn u32_from_le(b0: u8, b1: u8, b2: u8, b3: u8) -> u32 {
    (b0 as u32) | ((b1 as u32) << 8) | ((b2 as u32) << 16) | ((b3 as u32) << 24)
}

/// The little-endian 32-bit value stored at offset `off` of `s`.
pub open spec fn u32_at(s: Seq<u8>, off: int) -> u32 {
    u32_from_le(s[off], s[off + 1], s[off + 2], s[off + 3])
}

/// The four little-endian bytes of `x`.
#[verifier::opaque]
pub open spec fn u32_bytes(x: u32) -> Seq<u8> {
    seq![
        (x & 0xff) as u8,
        ((x >> 8) & 0xff) as u8,
        ((x >> 16) & 0xff) as u8,
        ((x >> 24) & 0xff) as u8,
    ]
}

/// Decoding the four bytes of `x` gives `x` back, whatever follows them.
pub proof fn lemma_u32_at_bytes(x: u32, tail: Seq<u8>)
    ensures
        u32_bytes(x).len() == 4,
        u32_at(u32_bytes(x) + tail, 0) == x,
        (u32_bytes(x) + tail).skip(4) == tail,
{
    reveal(u32_from_le);
    reveal(u32_bytes);
    let s = u32_bytes(x) + tail;
    assert(s[0] == (x & 0xff) as u8);
    assert(s[1] == ((x >> 8) & 0xff) as u8);
    assert(s[2] == ((x >> 16) & 0xff) as u8);
    assert(s[3] == ((x >> 24) & 0xff) as u8);
    assert(u32_from_le(
        (x & 0xff) as u8,
        ((x >> 8) & 0xff) as u8,
        ((x >> 16) & 0xff) as u8,
        ((x >> 24) & 0xff) as u8,
    ) == x) by (bit_vector);
    assert(s.skip(4) =~= tail);
}

/// Skipping nothing changes nothing.
pub proof fn lemma_skip_none(s: Seq<u8>)
    ensures
        s.skip(0) == s,
{
    assert(s.skip(0) =~= s);
}

/// Appending is associative.
pub proof fn lemma_concat_assoc(a: Seq<u8>, b: Seq<u8>, c: Seq<u8>)
    ensures
        (a + b) + c == a + (b + c),
{
    assert((a + b) + c =~= a + (b + c));
}

/// Where the stream from offset `off` on starts with `a`, `a` stands at
/// `off` and the rest follows it.
pub proof fn lemma_prefix_split(a: Seq<u8>, rest: Seq<u8>, s: Seq<u8>, off: int)
    requires
        0 <= off <= s.len(),
        s.skip(off) == a + rest,
    ensures
        off + a.len() <= s.len(),
        s.subrange(off, off + a.len()) == a,
        s.skip(off + a.len()) == rest,
{
    let t = s.skip(off);
    assert(t.len() == a.len() + rest.len());
    assert(s.subrange(off, off + a.len()) =~= t.subrange(0, a.len() as int));
    assert(t.subrange(0, a.len() as int) =~= a);
    assert(s.skip(off + a.len()) =~= t.skip(a.len() as int));
    assert(t.skip(a.len() as int) =~= rest);
}

/// Where the stream from offset `off` on starts with the bytes of `x`, the
/// value read at `off` is `x`.
pub proof fn lemma_word_prefix(x: u32, rest: Seq<u8>, s: Seq<u8>, off: int)
    requires
        0 <= off <= s.len(),
        s.skip(off) == u32_bytes(x) + rest,
    ensures
        off + 4 <= s.len(),
        u32_at(s, off) == x,
        s.skip(off + 4) == rest,
{
    lemma_u32_at_bytes(x, rest);
    lemma_prefix_split(u32_bytes(x), rest, s, off);
    lemma_u32_at(s, off, x);
}

/// Where the four bytes of `x` stand at offset `off` of `s`, the value read there is `x`.
pub proof fn lemma_u32_at(s: Seq<u8>, off: int, x: u32)
    requires
        0 <= off,
        off + 4 <= s.len(),
        s.subrange(off, off + 4) == u32_bytes(x),
    ensures
        u32_at(s, off) == x,
{
    let w = s.subrange(off, off + 4);
    assert(s[off] == w[0] && s[off + 1] == w[1] && s[off + 2] == w[2] && s[off + 3] == w[3]);
    lemma_u32_at_bytes(x, Seq::empty());
    assert(u32_bytes(x) + Seq::<u8>::empty() =~= u32_bytes(x));
}

/// `byteorder::LittleEndian::read_u32`: the value of the first four bytes of
/// `buf`, least significant byte first. The crate panics on a shorter buffer,
/// which the precondition leaves out.
#[verifier::external_body]
pub(crate) fn le_read_u32(buf: &[u8]) -> (r: u32)
    requires
        buf@.len() >= 4,
    ensures
        r == u32_at(buf@, 0),
{
    LittleEndian::read_u32(buf)
}

/// `byteorder::LittleEndian::write_u32` on a four-byte buffer: the buffer then
/// holds the bytes of `x`, least significant byte first.
#[verifier::external_body]
pub(crate) fn le_write_u32(x: u32) -> (r: [u8; 4])
    ensures
        r@ == u32_bytes(x),
{
    let mut buf = [0u8; 4];
    LittleEndian::write_u32(&mut buf, x);
    buf
}

} // verus!
