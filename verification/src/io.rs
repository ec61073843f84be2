use crate::error::Error;
use crate::le::{le_read_u32, le_write_u32, u32_at, u32_bytes};
use vstd::prelude::*;
use vstd::slice::{slice_subrange, slice_to_vec};
use vstd::utf8::{
    decode_utf8, decode_utf8_encode_utf8, encode_utf8, encode_utf8_decode_utf8,
    encode_utf8_valid_utf8, valid_utf8,
};

verus! {

/// Number of bytes of `s` before its first zero byte, or all of them if none is zero.
pub open spec fn nul_index(s: Seq<u8>) -> nat
    decreases s.len(),
{
    if s.len() == 0 || s[0] == 0 {
        0
    } else {
        1 + nul_index(s.skip(1))
    }
}

/// The bytes of the null-terminated string at the start of `s`, terminator excluded.
pub open spec fn cstring_body(s: Seq<u8>) -> Seq<u8> {
    s.take(nul_index(s) as int)
}

/// What follows the null-terminated string at the start of `s` and its terminator.
pub open spec fn cstring_rest(s: Seq<u8>) -> Seq<u8> {
    if nul_index(s) < s.len() {
        s.skip(nul_index(s) as int + 1)
    } else {
        Seq::empty()
    }
}

/// Number of bytes that the compressed integer at the start of `s` occupies:
/// up to and including the first byte below 0x80, or all of `s`.
pub open spec fn compressed_int_width(s: Seq<u8>) -> nat
    decreases s.len(),
{
    if s.len() == 0 {
        0
    } else if s[0] < 0x80 {
        1
    } else {
        1 + compressed_int_width(s.skip(1))
    }
}

/// The compressed integer at the start of `s` is all there: a byte below
/// 0x80 closes it before `s` ends.
pub open spec fn compressed_int_complete(s: Seq<u8>) -> bool
    decreases s.len(),
{
    if s.len() == 0 {
        false
    } else if s[0] < 0x80 {
        true
    } else {
        compressed_int_complete(s.skip(1))
    }
}

/// The value of the compressed integer at the start of `s`: seven bits per
/// byte, least significant group first, as an unbounded number.
pub open spec fn compressed_int_value(s: Seq<u8>) -> nat
    decreases s.len(),
{
    if s.len() == 0 {
        0
    } else if s[0] < 0x80 {
        s[0] as nat
    } else {
        (s[0] - 0x80) as nat + 128 * compressed_int_value(s.skip(1))
    }
}

/// The encoding of `x` as a compressed integer.
pub open spec fn compressed_int_bytes(x: u32) -> Seq<u8>
    decreases x,
{
    if x < 0x80 {
        seq![x as u8]
    } else {
        seq![(x % 128 + 128) as u8] + compressed_int_bytes(x / 128)
    }
}

/// Number of bytes in the encoding of `x`, by the size of `x`.
pub open spec fn compressed_int_size(x: u32) -> nat {
    if x < 0x80 {
        1
    } else if x < 0x4000 {
        2
    } else if x < 0x20_0000 {
        3
    } else if x < 0x1000_0000 {
        4
    } else {
        5
    }
}

/// The text has no zero byte in its UTF-8 encoding.
pub open spec fn nul_free(text: Seq<char>) -> bool {
    forall|i: int| 0 <= i < encode_utf8(text).len() ==> encode_utf8(text)[i] != 0
}

/// The bytes that store `text` as a null-terminated string.
pub open spec fn cstring_bytes(text: Seq<char>) -> Seq<u8> {
    encode_utf8(text) + seq![0u8]
}

/// The text at the start of `s` and the bytes that follow its terminator.
pub open spec fn parse_cstring(s: Seq<u8>) -> Result<(Seq<char>, Seq<u8>), Error> {
    if valid_utf8(cstring_body(s)) {
        Ok((decode_utf8(cstring_body(s)), cstring_rest(s)))
    } else {
        Err(Error::InvalidUtf8)
    }
}

/// The string at the start of `s` lies within `s` and holds no zero byte.
pub proof fn lemma_nul_index_bounds(s: Seq<u8>)
    ensures
        nul_index(s) <= s.len(),
        forall|k: int| 0 <= k < nul_index(s) ==> s[k] != 0,
        nul_index(s) < s.len() ==> s[nul_index(s) as int] == 0,
    decreases s.len(),
{
    if s.len() != 0 && s[0] != 0 {
        let t = s.skip(1);
        lemma_nul_index_bounds(t);
        assert forall|k: int| 0 <= k < nul_index(s) implies s[k] != 0 by {
            if k > 0 {
                assert(t[k - 1] == s[k]);
            }
        }
    }
}

/// Reading a stored string gives the text back and leaves what followed it.
pub proof fn lemma_parse_cstring_bytes(text: Seq<char>, tail: Seq<u8>)
    requires
        nul_free(text),
    ensures
        cstring_body(cstring_bytes(text) + tail) == encode_utf8(text),
        cstring_rest(cstring_bytes(text) + tail) == tail,
        parse_cstring(cstring_bytes(text) + tail) == Ok::<(Seq<char>, Seq<u8>), Error>(
            (text, tail),
        ),
{
    let body = encode_utf8(text);
    let s = cstring_bytes(text) + tail;
    assert forall|k: int| 0 <= k < body.len() implies s[k] != 0 by {
        assert(s[k] == body[k]);
    }
    assert(s[body.len() as int] == 0);
    lemma_nul_index(s, body.len());
    assert(cstring_body(s) =~= body);
    assert(cstring_rest(s) =~= tail);
    encode_utf8_valid_utf8(text);
    encode_utf8_decode_utf8(text);
}

/// Text read from a stream holds no zero byte.
pub proof fn lemma_parse_cstring_nul_free(s: Seq<u8>)
    ensures
        parse_cstring(s) matches Ok(p) ==> nul_free(p.0),
        cstring_rest(s).len() <= s.len(),
{
    lemma_nul_index_bounds(s);
    if valid_utf8(cstring_body(s)) {
        decode_utf8_encode_utf8(cstring_body(s));
    }
}

/// If the first `n` bytes of `s` are nonzero and byte `n` is zero or missing,
/// the string at the start of `s` has `n` bytes.
pub proof fn lemma_nul_index(s: Seq<u8>, n: nat)
    requires
        n <= s.len(),
        forall|k: int| 0 <= k < n ==> s[k] != 0,
        n == s.len() || s[n as int] == 0,
    ensures
        nul_index(s) == n,
    decreases n,
{
    if n > 0 {
        let t = s.skip(1);
        assert forall|k: int| 0 <= k < n - 1 implies t[k] != 0 by {
            assert(t[k] == s[k + 1]);
        }
        lemma_nul_index(t, (n - 1) as nat);
    }
}

/// The encoding of `x` has as many bytes as its size class says.
pub proof fn lemma_compressed_int_size(x: u32)
    ensures
        compressed_int_bytes(x).len() == compressed_int_size(x),
    decreases x,
{
    if x >= 0x80 {
        lemma_compressed_int_size(x / 128);
    }
}

/// Decoding the encoding of `x` gives `x`, and takes exactly the encoding's
/// bytes, whatever follows them.
pub proof fn lemma_compressed_int_round_trip(x: u32, tail: Seq<u8>)
    ensures
        compressed_int_complete(compressed_int_bytes(x) + tail),
        compressed_int_value(compressed_int_bytes(x) + tail) == x,
        compressed_int_width(compressed_int_bytes(x) + tail) == compressed_int_bytes(x).len(),
        (compressed_int_bytes(x) + tail).skip(compressed_int_bytes(x).len() as int) == tail,
    decreases x,
{
    let s = compressed_int_bytes(x) + tail;
    assert(s.skip(compressed_int_bytes(x).len() as int) =~= tail);
    if x < 0x80 {
        assert(s[0] == x as u8);
    } else {
        let rest = compressed_int_bytes(x / 128);
        assert(s[0] == (x % 128 + 128) as u8);
        assert(s.skip(1) =~= rest + tail);
        lemma_compressed_int_round_trip(x / 128, tail);
    }
}

/// A byte source, with null-terminated strings and compressed integers
/// read from it. A source gives its bytes one at a time; the two readers
/// work on any source.
pub trait ReadExt {
    /// The bytes that have not been read yet.
    spec fn unread(&self) -> Seq<u8>;

    /// Consumes one byte, if there is one.
    fn read_byte(&mut self) -> (r: Option<u8>)
        ensures
            r is Some <==> old(self).unread().len() > 0,
            r matches Some(b) ==> b == old(self).unread()[0],
            final(self).unread() == if old(self).unread().len() > 0 {
                old(self).unread().skip(1)
            } else {
                old(self).unread()
            },
    ;

    /// Consumes exactly `n` bytes; fails if fewer are left.
    fn read_exact(&mut self, n: usize) -> (r: Result<Vec<u8>, Error>)
        ensures
            r is Ok <==> n <= old(self).unread().len(),
            r matches Ok(v) ==> v@ == old(self).unread().take(n as int) && final(self).unread()
                == old(self).unread().skip(n as int),
            r matches Err(e) ==> e == Error::UnexpectedEof,
    {
        let ghost before = self.unread();
        let mut bytes: Vec<u8> = Vec::new();
        let mut i: usize = 0;
        assert(before.skip(0) =~= before);
        while i < n
            invariant
                i <= n,
                i <= before.len(),
                bytes@ == before.take(i as int),
                self.unread() == before.skip(i as int),
                before == old(self).unread(),
            decreases n - i,
        {
            match self.read_byte() {
                Some(b) => {
                    bytes.push(b);
                    assert(bytes@ =~= before.take(i + 1));
                    assert(before.skip(i as int).skip(1) =~= before.skip(i + 1));
                },
                None => {
                    return Err(Error::UnexpectedEof);
                },
            }
            i = i + 1;
        }
        Ok(bytes)
    }

    /// Consumes a little-endian 32-bit value; fails if fewer than four
    /// bytes are left.
    fn read_u32(&mut self) -> (r: Result<u32, Error>)
        ensures
            r is Ok <==> 4 <= old(self).unread().len(),
            r matches Ok(v) ==> v == u32_at(old(self).unread(), 0) && final(self).unread() == old(
                self,
            ).unread().skip(4),
            r matches Err(e) ==> e == Error::UnexpectedEof,
    {
        let bytes = self.read_exact(4)?;
        Ok(le_read_u32(bytes.as_slice()))
    }

    /// Consumes the bytes up to and including the first zero byte (or all that
    /// is left, if none is zero) and decodes what stood before the zero as UTF-8.
    fn read_cstring(&mut self) -> (r: Result<String, Error>)
        ensures
            final(self).unread() == cstring_rest(old(self).unread()),
            r is Ok <==> valid_utf8(cstring_body(old(self).unread())),
            r matches Ok(v) ==> v@ == decode_utf8(cstring_body(old(self).unread())),
            r matches Err(e) ==> e == Error::InvalidUtf8,
    {
        let ghost before = self.unread();
        let mut bytes: Vec<u8> = Vec::new();
        let mut done: bool = false;
        assert(before.skip(0) =~= before);
        while !done
            invariant
                bytes@.len() <= before.len(),
                bytes@ == before.take(bytes@.len() as int),
                forall|k: int| 0 <= k < bytes@.len() ==> before[k] != 0,
                !done ==> self.unread() == before.skip(bytes@.len() as int),
                done ==> nul_index(before) == bytes@.len() && self.unread() == cstring_rest(
                    before,
                ),
            decreases
                    self.unread().len() + if done {
                        0int
                    } else {
                        1int
                    },
        {
            let ghost n = bytes@.len();
            let ghost cur = self.unread();
            match self.read_byte() {
                Some(b) => {
                    assert(b == before[n as int]);
                    assert(cur.skip(1) =~= before.skip(n as int + 1));
                    if b == 0 {
                        proof {
                            lemma_nul_index(before, n);
                        }
                        done = true;
                    } else {
                        bytes.push(b);
                        assert(bytes@ =~= before.take(n as int + 1));
                    }
                },
                None => {
                    proof {
                        lemma_nul_index(before, n);
                        assert(cur =~= Seq::<u8>::empty());
                    }
                    done = true;
                },
            }
        }
        match string_from_utf8(bytes) {
            Some(s) => Ok(s),
            None => Err(Error::InvalidUtf8),
        }
    }

    /// Consumes one compressed integer and returns its value. Fails with
    /// `UnexpectedEof` if the source ends before the byte that closes the
    /// integer, else with `IntOverflow` if the value does not fit in 32 bits.
    fn read_compressed_int(&mut self) -> (r: Result<u32, Error>)
        ensures
            final(self).unread() == old(self).unread().skip(
                compressed_int_width(old(self).unread()) as int,
            ),
            r is Ok <==> compressed_int_complete(old(self).unread()) && compressed_int_value(
                old(self).unread(),
            ) <= u32::MAX,
            r matches Ok(v) ==> v == compressed_int_value(old(self).unread()),
            r matches Err(e) ==> e == if compressed_int_complete(old(self).unread()) {
                Error::IntOverflow
            } else {
                Error::UnexpectedEof
            },
    {
        let ghost before = self.unread();
        let mut acc: u64 = 0;
        let mut weight: u64 = 1;
        let mut over: bool = false;
        let mut more: bool = true;
        let mut ended: bool = false;
        let ghost mut used: nat = 0;
        let ghost mut total: nat = 0;
        let ghost mut scale: nat = 1;
        assert(before.skip(0) =~= before);
        while more
            invariant
                used <= before.len(),
                self.unread() == before.skip(used as int),
                more ==> compressed_int_value(before) == total + scale * compressed_int_value(
                    self.unread(),
                ),
                more ==> compressed_int_width(before) == used + compressed_int_width(
                    self.unread(),
                ),
                more ==> !ended && compressed_int_complete(before) == compressed_int_complete(
                    self.unread(),
                ),
                !more ==> compressed_int_value(before) == total,
                !more ==> compressed_int_width(before) == used,
                !more ==> compressed_int_complete(before) == !ended,
                !over ==> acc == total,
                acc <= u32::MAX,
                over ==> total > u32::MAX,
                (weight == scale && scale <= 0x8_0000_0000) || (weight == 0x8_0000_0000 && scale
                    >= 0x8_0000_0000),
                weight >= 1,
            decreases
                    self.unread().len() + if more {
                        1int
                    } else {
                        0int
                    },
        {
            let ghost cur = self.unread();
            match self.read_byte() {
                None => {
                    assert(compressed_int_value(cur) == 0);
                    assert(scale * 0 == 0);
                    more = false;
                    ended = true;
                },
                Some(b) => {
                    let group: u64 = if b < 0x80 {
                        b as u64
                    } else {
                        (b - 0x80) as u64
                    };
                    let ghost next = self.unread();
                    let ghost g: nat = group as nat;
                    let ghost v: nat = compressed_int_value(next);
                    proof {
                        assert(next =~= before.skip(used as int + 1));
                        assert(compressed_int_value(cur) == if b < 0x80 {
                            g
                        } else {
                            g + 128 * v
                        });
                        assert(compressed_int_width(cur) == if b < 0x80 {
                            1
                        } else {
                            1 + compressed_int_width(next)
                        });
                        assert(compressed_int_complete(cur) == if b < 0x80 {
                            true
                        } else {
                            compressed_int_complete(next)
                        });
                        assert(scale * (g + 128 * v) == scale * g + (128 * scale) * v)
                            by (nonlinear_arith);
                        assert(group * weight <= 127 * 0x8_0000_0000 && group * weight <= scale
                            * g && (weight == scale ==> group * weight == scale * g) && (weight
                            == 0x8_0000_0000 && g >= 1 ==> group * weight >= 0x8_0000_0000) && (g
                            == 0 ==> group * weight == 0 && scale * g == 0)) by (nonlinear_arith)
                            requires
                                g == group,
                                group <= 127,
                                1 <= weight <= 0x8_0000_0000,
                                weight <= scale,
                        ;
                    }
                    let sum: u64 = acc + group * weight;
                    if over || sum > 0xffff_ffff {
                        over = true;
                    } else {
                        acc = sum;
                    }
                    proof {
                        total = total + scale * g;
                        scale = 128 * scale;
                        used = used + 1;
                    }
                    if weight <= 0x1000_0000 {
                        weight = weight * 128;
                    } else {
                        weight = 0x8_0000_0000;
                    }
                    if b < 0x80 {
                        more = false;
                    }
                },
            }
        }
        if ended {
            Err(Error::UnexpectedEof)
        } else if over {
            Err(Error::IntOverflow)
        } else {
            Ok(acc as u32)
        }
    }
}

/// A byte sink, with null-terminated strings and compressed integers
/// written to it. A sink takes runs of bytes; the two writers work on any
/// sink.
pub trait WriteExt {
    /// The bytes written so far.
    spec fn written(&self) -> Seq<u8>;

    /// Appends `bytes`.
    fn write_all(&mut self, bytes: &[u8])
        ensures
            final(self).written() == old(self).written() + bytes@,
    ;

    /// Appends one byte.
    fn write_byte(&mut self, b: u8)
        ensures
            final(self).written() == old(self).written().push(b),
    {
        let one: [u8; 1] = [b];
        self.write_all(one.as_slice());
        assert(old(self).written() + one@ =~= old(self).written().push(b));
    }

    /// Appends the four little-endian bytes of `x`.
    fn write_u32(&mut self, x: u32)
        ensures
            final(self).written() == old(self).written() + u32_bytes(x),
    {
        let buf = le_write_u32(x);
        self.write_all(buf.as_slice());
    }

    /// Appends the bytes of `s` and one zero byte.
    fn write_cstring(&mut self, s: &[u8]) -> (r: Result<(), Error>)
        ensures
            r is Ok,
            final(self).written() == old(self).written() + s@ + seq![0u8],
    {
        let end: [u8; 1] = [0u8];
        self.write_all(s);
        self.write_all(end.as_slice());
        assert(end@ =~= seq![0u8]);
        Ok(())
    }

    /// Appends the encoding of `x` and returns its length in bytes.
    fn write_compressed_int(&mut self, x: u32) -> (r: Result<usize, Error>)
        ensures
            r == Ok::<usize, Error>(compressed_int_size(x) as usize),
            final(self).written() == old(self).written() + compressed_int_bytes(x),
    {
        let ghost before = self.written();
        let mut temp: u32 = x;
        let mut len: usize = 0;
        proof {
            lemma_compressed_int_size(x);
        }
        while temp > 0x7f
            invariant
                self.written() + compressed_int_bytes(temp) == before + compressed_int_bytes(x),
                len + compressed_int_bytes(temp).len() == compressed_int_bytes(x).len(),
                compressed_int_bytes(x).len() <= 5,
            decreases temp,
        {
            let ghost prev = self.written();
            let low: u32 = temp % 128 + 128;
            let one: [u8; 1] = [low as u8];
            self.write_all(one.as_slice());
            proof {
                assert(one@ =~= seq![low as u8]);
                assert((prev + one@) + compressed_int_bytes(temp / 128) =~= prev
                    + compressed_int_bytes(temp));
            }
            len = len + 1;
            temp = temp / 128;
        }
        let ghost prev = self.written();
        let last: [u8; 1] = [temp as u8];
        self.write_all(last.as_slice());
        proof {
            assert(last@ =~= seq![temp as u8]);
            assert(prev + last@ =~= prev + compressed_int_bytes(temp));
        }
        Ok(len + 1)
    }
}

/// `String::from_utf8`: the string that the bytes encode, or `None` where
/// they are not valid UTF-8.
#[verifier::external_body]
fn string_from_utf8(bytes: Vec<u8>) -> (r: Option<String>)
    ensures
        r is Some <==> valid_utf8(bytes@),
        r matches Some(s) ==> s@ == decode_utf8(bytes@),
{
    String::from_utf8(bytes).ok()
}

/// An in-memory byte source with a read position.
pub struct Input {
    data: Vec<u8>,
    pos: usize,
}

impl Input {
    #[verifier::type_invariant]
    spec fn in_bounds(self) -> bool {
        self.pos <= self.data.len()
    }

    /// A source that yields `data` from its first byte.
    pub fn new(data: Vec<u8>) -> (r: Input)
        ensures
            r.unread() == data@,
    {
        let r = Input { data, pos: 0 };
        assert(r.data@.skip(0) =~= data@);
        r
    }

    /// Number of bytes that are left to read.
    pub fn remaining(&self) -> (n: usize)
        ensures
            n == self.unread().len(),
    {
        proof {
            use_type_invariant(self);
        }
        self.data.len() - self.pos
    }
}

impl ReadExt for Input {
    closed spec fn unread(&self) -> Seq<u8> {
        self.data@.skip(self.pos as int)
    }

    fn read_byte(&mut self) -> (r: Option<u8>) {
        proof {
            use_type_invariant(&*self);
        }
        if self.pos < self.data.len() {
            let b = self.data[self.pos];
            assert(self.data@.skip(self.pos as int).skip(1) =~= self.data@.skip(self.pos + 1));
            self.pos = self.pos + 1;
            Some(b)
        } else {
            None
        }
    }

    /// Copies the bytes in one piece; nothing is consumed where it fails.
    fn read_exact(&mut self, n: usize) -> (r: Result<Vec<u8>, Error>)
        ensures
            r is Err ==> final(self).unread() == old(self).unread(),
    {
        proof {
            use_type_invariant(&*self);
        }
        if self.data.len() - self.pos < n {
            return Err(Error::UnexpectedEof);
        }
        let v = slice_to_vec(slice_subrange(self.data.as_slice(), self.pos, self.pos + n));
        assert(v@ =~= self.data@.skip(self.pos as int).take(n as int));
        assert(self.data@.skip(self.pos as int).skip(n as int) =~= self.data@.skip(self.pos + n));
        self.pos = self.pos + n;
        Ok(v)
    }
}

/// An in-memory byte sink.
pub struct Output {
    data: Vec<u8>,
}

impl Output {
    /// An empty sink.
    pub fn new() -> (r: Output)
        ensures
            r.written() == Seq::<u8>::empty(),
    {
        Output { data: Vec::new() }
    }

    /// The bytes written, in order.
    pub fn into_bytes(self) -> (r: Vec<u8>)
        ensures
            r@ == self.written(),
    {
        self.data
    }
}

impl WriteExt for Output {
    closed spec fn written(&self) -> Seq<u8> {
        self.data@
    }

    fn write_all(&mut self, bytes: &[u8]) {
        self.data.extend_from_slice(bytes);
    }
}

/// Number of bytes that `x` takes as a compressed integer.
pub fn compressed_int_len(x: u32) -> (r: usize)
    ensures
        r == compressed_int_bytes(x).len(),
        r == compressed_int_size(x),
{
    let mut temp: u32 = x;
    let mut len: usize = 0;
    proof {
        lemma_compressed_int_size(x);
    }
    while temp > 0x7f
        invariant
            len + compressed_int_bytes(temp).len() == compressed_int_bytes(x).len(),
            compressed_int_bytes(x).len() <= 5,
        decreases temp,
    {
        len = len + 1;
        temp = temp / 128;
    }
    len + 1
}

} // verus!
