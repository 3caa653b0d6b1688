use vstd::prelude::*;
use vstd::string::StringSliceAdditionalSpecFns;
use crate::error::Error;

verus! {

/// Byte order of multi-byte integers in a stream.
#[derive(Debug, Clone, Copy, PartialEq, Eq, Structural)]
pub enum Endian {
    Little,
    Big,
}

/// Byte `j` (0 = least significant) of a 32-bit word.
pub open spec fn byte_of(w: u32, j: int) -> u8 {
    ((w >> ((8 * j) as u32)) & 0xff) as u8
}

/// The word whose little-endian bytes are `b0 b1 b2 b3`.
pub open spec fn le_u32(b0: u8, b1: u8, b2: u8, b3: u8) -> u32 {
    (b0 as u32) | ((b1 as u32) << 8u32) | ((b2 as u32) << 16u32) | ((b3 as u32) << 24u32)
}

/// The four bytes of `w` in little-endian order.
pub open spec fn u32_le_bytes(w: u32) -> Seq<u8> {
    seq![byte_of(w, 0), byte_of(w, 1), byte_of(w, 2), byte_of(w, 3)]
}

/// The encoding of a `u32` in the given byte order.
pub open spec fn u32_bytes(w: u32, e: Endian) -> Seq<u8> {
    match e {
        Endian::Little => u32_le_bytes(w),
        Endian::Big => seq![byte_of(w, 3), byte_of(w, 2), byte_of(w, 1), byte_of(w, 0)],
    }
}

/// The encoding of a `u16` in the given byte order.
pub open spec fn u16_bytes(v: u16, e: Endian) -> Seq<u8> {
    match e {
        Endian::Little => seq![byte_of(v as u32, 0), byte_of(v as u32, 1)],
        Endian::Big => seq![byte_of(v as u32, 1), byte_of(v as u32, 0)],
    }
}

pub open spec fn lo_half(v: u64) -> u32 {
    (v & 0xffff_ffff) as u32
}

pub open spec fn hi_half(v: u64) -> u32 {
    (v >> 32u64) as u32
}

/// The encoding of a `u64` in the given byte order.
pub open spec fn u64_bytes(v: u64, e: Endian) -> Seq<u8> {
    match e {
        Endian::Little => u32_bytes(lo_half(v), e) + u32_bytes(hi_half(v), e),
        Endian::Big => u32_bytes(hi_half(v), e) + u32_bytes(lo_half(v), e),
    }
}

pub open spec fn i32_bytes(v: i32, e: Endian) -> Seq<u8> {
    u32_bytes(v as u32, e)
}

pub open spec fn i64_bytes(v: i64, e: Endian) -> Seq<u8> {
    u64_bytes(v as u64, e)
}

/// Number of zero bytes that bring position `pos` to a multiple of `a`.
pub open spec fn pad_len(pos: int, a: int) -> int {
    if pos % a == 0 {
        0
    } else {
        a - pos % a
    }
}

pub open spec fn zeros(n: int) -> Seq<u8> {
    Seq::new(n as nat, |i: int| 0u8)
}

pub proof fn lemma_le_u32_of_bytes(w: u32)
    ensures
        le_u32(byte_of(w, 0), byte_of(w, 1), byte_of(w, 2), byte_of(w, 3)) == w,
{
    assert(((w >> 0u32) & 0xff) as u8 as u32 | ((((w >> 8u32) & 0xff) as u8 as u32) << 8u32) | ((((
    w >> 16u32) & 0xff) as u8 as u32) << 16u32) | ((((w >> 24u32) & 0xff) as u8 as u32) << 24u32)
        == w) by (bit_vector);
}

pub proof fn lemma_bytes_of_le_u32(b0: u8, b1: u8, b2: u8, b3: u8)
    ensures
        byte_of(le_u32(b0, b1, b2, b3), 0) == b0,
        byte_of(le_u32(b0, b1, b2, b3), 1) == b1,
        byte_of(le_u32(b0, b1, b2, b3), 2) == b2,
        byte_of(le_u32(b0, b1, b2, b3), 3) == b3,
{
    let w = le_u32(b0, b1, b2, b3);
    assert(w == (b0 as u32) | ((b1 as u32) << 8u32) | ((b2 as u32) << 16u32) | ((b3 as u32)
        << 24u32));
    assert((((b0 as u32) | ((b1 as u32) << 8u32) | ((b2 as u32) << 16u32) | ((b3 as u32)
        << 24u32)) >> 0u32) & 0xff == b0 as u32) by (bit_vector);
    assert((((b0 as u32) | ((b1 as u32) << 8u32) | ((b2 as u32) << 16u32) | ((b3 as u32)
        << 24u32)) >> 8u32) & 0xff == b1 as u32) by (bit_vector);
    assert((((b0 as u32) | ((b1 as u32) << 8u32) | ((b2 as u32) << 16u32) | ((b3 as u32)
        << 24u32)) >> 16u32) & 0xff == b2 as u32) by (bit_vector);
    assert((((b0 as u32) | ((b1 as u32) << 8u32) | ((b2 as u32) << 16u32) | ((b3 as u32)
        << 24u32)) >> 24u32) & 0xff == b3 as u32) by (bit_vector);
}

/// A `u32` is determined by its encoding.
pub proof fn lemma_u32_bytes_injective(a: u32, b: u32, e: Endian)
    requires
        u32_bytes(a, e) == u32_bytes(b, e),
    ensures
        a == b,
{
    lemma_le_u32_of_bytes(a);
    lemma_le_u32_of_bytes(b);
    assert(u32_bytes(a, e)[0] == u32_bytes(b, e)[0]);
    assert(u32_bytes(a, e)[1] == u32_bytes(b, e)[1]);
    assert(u32_bytes(a, e)[2] == u32_bytes(b, e)[2]);
    assert(u32_bytes(a, e)[3] == u32_bytes(b, e)[3]);
}

/// An `i32` is determined by its encoding.
pub proof fn lemma_i32_bytes_injective(a: i32, b: i32, e: Endian)
    requires
        i32_bytes(a, e) == i32_bytes(b, e),
    ensures
        a == b,
{
    lemma_u32_bytes_injective(a as u32, b as u32, e);
    assert((a as u32) == (b as u32) ==> a == b) by (bit_vector);
}

/// A NUL-terminated string without inner zero bytes is determined by the bytes where it
/// starts.
pub proof fn lemma_nul_unique(d: Seq<u8>, pos: int, v: Seq<u8>, s: Seq<u8>)
    requires
        0 <= pos,
        pos + v.len() + 1 <= d.len(),
        pos + s.len() + 1 <= d.len(),
        d.subrange(pos, pos + v.len() + 1) == nul_bytes(v),
        d.subrange(pos, pos + s.len() + 1) == nul_bytes(s),
        !v.contains(0u8),
        !s.contains(0u8),
    ensures
        v == s,
{
    if v.len() < s.len() {
        assert(d.subrange(pos, pos + v.len() + 1)[v.len() as int] == 0u8);
        assert(d.subrange(pos, pos + s.len() + 1)[v.len() as int] == s[v.len() as int]);
        assert(s.contains(0u8));
    } else if s.len() < v.len() {
        assert(d.subrange(pos, pos + s.len() + 1)[s.len() as int] == 0u8);
        assert(d.subrange(pos, pos + v.len() + 1)[s.len() as int] == v[s.len() as int]);
        assert(v.contains(0u8));
    } else {
        assert forall|k: int| 0 <= k < v.len() implies v[k] == s[k] by {
            assert(d.subrange(pos, pos + v.len() + 1)[k] == d.subrange(pos, pos + s.len() + 1)[k]);
        }
        assert(v =~= s);
    }
}

/// Relies on std's `str::from_utf8`: it succeeds exactly on valid UTF-8.
#[verifier::external_body]
pub(crate) fn is_utf8(b: &[u8]) -> (r: bool)
    ensures
        r == vstd::utf8::valid_utf8(b@),
{
    std::str::from_utf8(b).is_ok()
}

/// Reads the little-endian word at `b[at..at + 4]`.
pub fn read_le_u32(b: &[u8], at: usize) -> (r: u32)
    requires
        at + 4 <= b@.len(),
    ensures
        r == le_u32(b@[at as int], b@[at + 1], b@[at + 2], b@[at + 3]),
{
    (b[at] as u32) | ((b[at + 1] as u32) << 8u32) | ((b[at + 2] as u32) << 16u32) | ((b[at
        + 3] as u32) << 24u32)
}

/// Byte `j` of `w`, executable.
pub fn word_byte(w: u32, j: u32) -> (r: u8)
    requires
        j < 4,
    ensures
        r == byte_of(w, j as int),
{
    ((w >> (8 * j)) & 0xff) as u8
}


/// The bytes of a NUL-terminated string.
pub open spec fn nul_bytes(b: Seq<u8>) -> Seq<u8> {
    b.push(0u8)
}

/// The bytes of a length-prefixed string whose payload starts at `pos + 4`, padded so
/// that the stream position becomes a multiple of `a`.
pub open spec fn aligned_string_bytes(s: Seq<u8>, e: Endian, pos: int, a: int) -> Seq<u8> {
    u32_bytes(s.len() as u32, e) + s + zeros(pad_len(pos + 4 + s.len(), a))
}

/// Writing into a growing byte buffer; the position is the buffer's length.
pub trait WriteExt {
    spec fn written(&self) -> Seq<u8>;

    fn write_u8(&mut self, v: u8)
        ensures
            final(self).written() == old(self).written().push(v),
    ;

    fn write_u16_order(&mut self, endian: &Endian, val: u16)
        ensures
            final(self).written() == old(self).written() + u16_bytes(val, *endian),
    ;

    fn write_u32_order(&mut self, endian: &Endian, val: u32)
        ensures
            final(self).written() == old(self).written() + u32_bytes(val, *endian),
    ;

    fn write_u64_order(&mut self, endian: &Endian, val: u64)
        ensures
            final(self).written() == old(self).written() + u64_bytes(val, *endian),
    ;

    fn write_bytes(&mut self, b: &[u8])
        ensures
            final(self).written() == old(self).written() + b@,
    ;

    /// Writes zero bytes until the length is a multiple of `alignment`.
    fn align(&mut self, alignment: u64)
        requires
            alignment > 0,
        ensures
            final(self).written() == old(self).written() + zeros(
                pad_len(old(self).written().len() as int, alignment as int),
            ),
    ;

    /// Writes a `u32` length, the UTF-8 bytes of `s`, then zero bytes up to a multiple of 4.
    fn write_dyn_string(&mut self, s: &str, endian: &Endian)
        requires
            s.spec_bytes().len() <= u32::MAX,
        ensures
            final(self).written() == old(self).written() + aligned_string_bytes(
                s.spec_bytes(),
                *endian,
                old(self).written().len() as int,
                4,
            ),
    ;
}

impl WriteExt for Vec<u8> {
    open spec fn written(&self) -> Seq<u8> {
        self@
    }

    fn write_u8(&mut self, v: u8) {
        self.push(v);
    }

    fn write_u16_order(&mut self, endian: &Endian, val: u16) {
        let w = val as u32;
        match endian {
            Endian::Little => {
                self.push(word_byte(w, 0));
                self.push(word_byte(w, 1));
            },
            Endian::Big => {
                self.push(word_byte(w, 1));
                self.push(word_byte(w, 0));
            },
        }
        assert(self@ =~= old(self)@ + u16_bytes(val, *endian));
    }

    fn write_u32_order(&mut self, endian: &Endian, val: u32) {
        match endian {
            Endian::Little => {
                self.push(word_byte(val, 0));
                self.push(word_byte(val, 1));
                self.push(word_byte(val, 2));
                self.push(word_byte(val, 3));
            },
            Endian::Big => {
                self.push(word_byte(val, 3));
                self.push(word_byte(val, 2));
                self.push(word_byte(val, 1));
                self.push(word_byte(val, 0));
            },
        }
        assert(self@ =~= old(self)@ + u32_bytes(val, *endian));
    }

    fn write_u64_order(&mut self, endian: &Endian, val: u64) {
        let lo = (val & 0xffff_ffff) as u32;
        let hi = (val >> 32u64) as u32;
        match endian {
            Endian::Little => {
                self.write_u32_order(endian, lo);
                self.write_u32_order(endian, hi);
            },
            Endian::Big => {
                self.write_u32_order(endian, hi);
                self.write_u32_order(endian, lo);
            },
        }
        assert(self@ =~= old(self)@ + u64_bytes(val, *endian));
    }

    fn write_bytes(&mut self, b: &[u8]) {
        let mut i: usize = 0;
        while i < b.len()
            invariant
                i <= b@.len(),
                self@ == old(self)@ + b@.subrange(0, i as int),
            decreases b@.len() - i,
        {
            self.push(b[i]);
            i = i + 1;
            assert(self@ =~= old(self)@ + b@.subrange(0, i as int));
        }
        assert(b@.subrange(0, b@.len() as int) =~= b@);
    }

    fn align(&mut self, alignment: u64) {
        let pos = self.len() as u64;
        let rem = pos % alignment;
        if rem != 0 {
            let pad = alignment - rem;
            let mut i: u64 = 0;
            while i < pad
                invariant
                    i <= pad,
                    self@ == old(self)@ + zeros(i as int),
                decreases pad - i,
            {
                self.push(0u8);
                i = i + 1;
                assert(self@ =~= old(self)@ + zeros(i as int));
            }
        } else {
            assert(self@ =~= old(self)@ + zeros(0));
        }
    }

    fn write_dyn_string(&mut self, s: &str, endian: &Endian) {
        let b = s.as_bytes();
        self.write_u32_order(endian, b.len() as u32);
        self.write_bytes(b);
        self.align(4);
        assert(self@ =~= old(self)@ + aligned_string_bytes(
            s.spec_bytes(),
            *endian,
            old(self)@.len() as int,
            4,
        ));
    }
}

/// A cursor over a byte buffer.
pub struct Reader {
    pub data: Vec<u8>,
    pub pos: usize,
}

impl Reader {
    pub open spec fn wf(&self) -> bool {
        self.pos <= self.data@.len()
    }

    /// `self` is `prev` moved on by `n` bytes, which were `bytes`.
    pub open spec fn took(&self, prev: Reader, n: int, bytes: Seq<u8>) -> bool {
        &&& self.data@ == prev.data@
        &&& prev.pos + n <= prev.data@.len()
        &&& self.pos == prev.pos + n
        &&& bytes == prev.data@.subrange(prev.pos as int, prev.pos + n)
    }

    /// Fewer than `n` bytes are left after the position.
    pub open spec fn short(&self, n: int) -> bool {
        self.pos + n > self.data@.len()
    }

    pub fn new(data: Vec<u8>) -> (r: Reader)
        ensures
            r.data@ == data@,
            r.pos == 0,
            r.wf(),
    {
        Reader { data, pos: 0 }
    }

    /// Takes `n` bytes.
    pub fn read_bytes(&mut self, n: usize) -> (r: Result<Vec<u8>, Error>)
        requires
            old(self).wf(),
        ensures
            final(self).wf(),
            final(self).data@ == old(self).data@,
            match r {
                Ok(v) => final(self).took(*old(self), n as int, v@),
                Err(e) => old(self).short(n as int) && e == Error::MalformedInput,
            },
    {
        if n > self.data.len() - self.pos {
            return Err(Error::MalformedInput);
        }
        let len = self.data.len();
        let mut v: Vec<u8> = Vec::new();
        let mut i: usize = 0;
        while i < n
            invariant
                i <= n,
                len == self.data@.len(),
                self.pos + n <= self.data@.len(),
                v@ == self.data@.subrange(self.pos as int, self.pos + i),
            decreases n - i,
        {
            v.push(self.data[self.pos + i]);
            i = i + 1;
            assert(v@ =~= self.data@.subrange(self.pos as int, self.pos + i));
        }
        self.pos = self.pos + n;
        Ok(v)
    }

    /// Moves past `n` bytes without looking at them.
    pub fn skip(&mut self, n: usize) -> (r: Result<(), Error>)
        requires
            old(self).wf(),
        ensures
            final(self).wf(),
            final(self).data@ == old(self).data@,
            match r {
                Ok(_) => final(self).took(
                    *old(self),
                    n as int,
                    old(self).data@.subrange(old(self).pos as int, old(self).pos + n),
                ),
                Err(e) => old(self).short(n as int) && e == Error::MalformedInput,
            },
    {
        if n > self.data.len() - self.pos {
            return Err(Error::MalformedInput);
        }
        self.pos = self.pos + n;
        Ok(())
    }

    /// Moves past the bytes that bring the position to a multiple of `a`.
    pub fn align(&mut self, a: usize) -> (r: Result<(), Error>)
        requires
            old(self).wf(),
            a > 0,
        ensures
            final(self).wf(),
            final(self).data@ == old(self).data@,
            match r {
                Ok(_) => final(self).took(
                    *old(self),
                    pad_len(old(self).pos as int, a as int),
                    old(self).data@.subrange(
                        old(self).pos as int,
                        old(self).pos + pad_len(old(self).pos as int, a as int),
                    ),
                ),
                Err(e) => old(self).short(pad_len(old(self).pos as int, a as int)) && e
                    == Error::MalformedInput,
            },
    {
        let rem = self.pos % a;
        if rem == 0 {
            self.skip(0)
        } else {
            self.skip(a - rem)
        }
    }

    pub fn read_u8(&mut self) -> (r: Result<u8, Error>)
        requires
            old(self).wf(),
        ensures
            final(self).wf(),
            final(self).data@ == old(self).data@,
            match r {
                Ok(v) => final(self).took(*old(self), 1, seq![v]),
                Err(e) => old(self).short(1) && e == Error::MalformedInput,
            },
    {
        if self.pos >= self.data.len() {
            return Err(Error::MalformedInput);
        }
        let v = self.data[self.pos];
        self.pos = self.pos + 1;
        assert(seq![v] =~= self.data@.subrange(self.pos - 1, self.pos as int));
        Ok(v)
    }

    pub fn read_u32_order(&mut self, endian: &Endian) -> (r: Result<u32, Error>)
        requires
            old(self).wf(),
        ensures
            final(self).wf(),
            final(self).data@ == old(self).data@,
            match r {
                Ok(v) => final(self).took(*old(self), 4, u32_bytes(v, *endian)),
                Err(e) => old(self).short(4) && e == Error::MalformedInput,
            },
    {
        if 4 > self.data.len() - self.pos {
            return Err(Error::MalformedInput);
        }
        let p = self.pos;
        let (b0, b1, b2, b3) = (self.data[p], self.data[p + 1], self.data[p + 2], self.data[p + 3]);
        let v = match endian {
            Endian::Little => read_le_u32(&self.data, p),
            Endian::Big => (b3 as u32) | ((b2 as u32) << 8u32) | ((b1 as u32) << 16u32) | ((
            b0 as u32) << 24u32),
        };
        proof {
            lemma_bytes_of_le_u32(b0, b1, b2, b3);
            lemma_bytes_of_le_u32(b3, b2, b1, b0);
        }
        self.pos = p + 4;
        assert(u32_bytes(v, *endian) =~= self.data@.subrange(p as int, p + 4));
        Ok(v)
    }

    pub fn read_u16_order(&mut self, endian: &Endian) -> (r: Result<u16, Error>)
        requires
            old(self).wf(),
        ensures
            final(self).wf(),
            final(self).data@ == old(self).data@,
            match r {
                Ok(v) => final(self).took(*old(self), 2, u16_bytes(v, *endian)),
                Err(e) => old(self).short(2) && e == Error::MalformedInput,
            },
    {
        if 2 > self.data.len() - self.pos {
            return Err(Error::MalformedInput);
        }
        let p = self.pos;
        let (lo, hi) = match endian {
            Endian::Little => (self.data[p], self.data[p + 1]),
            Endian::Big => (self.data[p + 1], self.data[p]),
        };
        let w = (lo as u32) | ((hi as u32) << 8u32);
        assert((lo as u32) | ((hi as u32) << 8u32) < 0x10000u32) by (bit_vector);
        assert(w == le_u32(lo, hi, 0, 0)) by {
            assert((lo as u32) | ((hi as u32) << 8u32) == (lo as u32) | ((hi as u32) << 8u32) | ((
            0u8 as u32) << 16u32) | ((0u8 as u32) << 24u32)) by (bit_vector);
        }
        proof {
            lemma_bytes_of_le_u32(lo, hi, 0, 0);
        }
        let v = w as u16;
        self.pos = p + 2;
        assert(u16_bytes(v, *endian) =~= self.data@.subrange(p as int, p + 2));
        Ok(v)
    }

    pub fn read_u64_order(&mut self, endian: &Endian) -> (r: Result<u64, Error>)
        requires
            old(self).wf(),
        ensures
            final(self).wf(),
            final(self).data@ == old(self).data@,
            match r {
                Ok(v) => final(self).took(*old(self), 8, u64_bytes(v, *endian)),
                Err(e) => old(self).short(8) && e == Error::MalformedInput,
            },
    {
        if 8 > self.data.len() - self.pos {
            return Err(Error::MalformedInput);
        }
        let ghost start = *self;
        let a = self.read_u32_order(endian).unwrap();
        let ghost mid = *self;
        let b = self.read_u32_order(endian).unwrap();
        let (lo, hi) = match endian {
            Endian::Little => (a, b),
            Endian::Big => (b, a),
        };
        let v = (lo as u64) | ((hi as u64) << 32u64);
        assert(((lo as u64) | ((hi as u64) << 32u64)) & 0xffff_ffff == lo as u64) by (bit_vector);
        assert(((lo as u64) | ((hi as u64) << 32u64)) >> 32u64 == hi as u64) by (bit_vector);
        assert(lo_half(v) == lo && hi_half(v) == hi);
        assert(u64_bytes(v, *endian) =~= self.data@.subrange(start.pos as int, start.pos + 8));
        Ok(v)
    }

    pub fn read_i32_order(&mut self, endian: &Endian) -> (r: Result<i32, Error>)
        requires
            old(self).wf(),
        ensures
            final(self).wf(),
            final(self).data@ == old(self).data@,
            match r {
                Ok(v) => final(self).took(*old(self), 4, i32_bytes(v, *endian)),
                Err(e) => old(self).short(4) && e == Error::MalformedInput,
            },
    {
        let u = self.read_u32_order(endian)?;
        assert((u as i32) as u32 == u) by (bit_vector);
        Ok(u as i32)
    }

    pub fn read_i64_order(&mut self, endian: &Endian) -> (r: Result<i64, Error>)
        requires
            old(self).wf(),
        ensures
            final(self).wf(),
            final(self).data@ == old(self).data@,
            match r {
                Ok(v) => final(self).took(*old(self), 8, i64_bytes(v, *endian)),
                Err(e) => old(self).short(8) && e == Error::MalformedInput,
            },
    {
        let u = self.read_u64_order(endian)?;
        assert((u as i64) as u64 == u) by (bit_vector);
        Ok(u as i64)
    }

    /// Takes the bytes up to the next zero byte, and that zero byte.
    pub fn read_null_string(&mut self) -> (r: Result<Vec<u8>, Error>)
        requires
            old(self).wf(),
        ensures
            final(self).wf(),
            final(self).data@ == old(self).data@,
            match r {
                Ok(v) => final(self).took(*old(self), v@.len() + 1int, nul_bytes(v@)) && !v@.contains(
                    0u8,
                ),
                Err(e) => e == Error::MalformedInput && forall|i: int|
                    old(self).pos <= i < old(self).data@.len() ==> old(self).data@[i] != 0u8,
            },
    {
        let mut v: Vec<u8> = Vec::new();
        let mut i = self.pos;
        while i < self.data.len()
            invariant
                *self == *old(self),
                self.pos <= i <= self.data@.len(),
                v@ == self.data@.subrange(self.pos as int, i as int),
                forall|j: int| self.pos <= j < i ==> self.data@[j] != 0u8,
            decreases self.data@.len() - i,
        {
            let b = self.data[i];
            if b == 0 {
                let ghost prev = *self;
                self.pos = i + 1;
                assert(nul_bytes(v@) =~= self.data@.subrange(prev.pos as int, i + 1));
                assert(!v@.contains(0u8)) by {
                    assert forall|k: int| 0 <= k < v@.len() implies v@[k] != 0u8 by {
                        assert(v@[k] == self.data@[prev.pos + k]);
                    }
                }
                return Ok(v);
            }
            v.push(b);
            i = i + 1;
            assert(v@ =~= self.data@.subrange(self.pos as int, i as int));
        }
        Err(Error::MalformedInput)
    }
}

} // verus!
