use vstd::prelude::*;
use crate::compression::{
    CompressionError, DecompressionError, compress, compressed, decompress, decompressed,
};
use crate::consts::{fs_std_data_path, fs_std_overlay_path, zero_padded};
use crate::utils::{AlignToElements, TryFromIntError, padding_for};

verus! {

/// A failure of the underlying byte stream.
#[derive(Debug, Clone, Copy, PartialEq, Eq, Structural)]
pub enum StreamError {
    /// The input ended before a value was complete.
    UnexpectedEof,
    /// A back-reference pointed before the start of the output.
    InvalidSeek,
}

/// A byte slice read from front to back.
pub struct ByteReader<'a> {
    pub bytes: &'a [u8],
    pub pos: usize,
}

/// The value of a varint whose first byte is at `pos`, after reading the
/// first `i` of its extra bytes.
pub open spec fn varint_partial(inp: Seq<u8>, pos: int, i: nat) -> u32
    decreases i,
{
    if i == 0 {
        (inp[pos] & 0x3f) as u32
    } else {
        varint_partial(inp, pos, (i - 1) as nat) | ((inp[pos + i] as u32) << ((i * 6) as u32))
    }
}

/// The number of extra bytes announced by a varint's first byte.
pub open spec fn varint_extra(first: u8) -> nat {
    (first >> 6u8) as nat
}

/// The varint at `pos`: its value and the position after it, or `None` when
/// the input ends first.
pub open spec fn varint_at(inp: Seq<u8>, pos: int) -> Option<(u32, int)> {
    if pos < 0 || pos >= inp.len() {
        None
    } else if pos + 1 + varint_extra(inp[pos]) > inp.len() {
        None
    } else {
        Some((varint_partial(inp, pos, varint_extra(inp[pos])), pos + 1 + varint_extra(inp[pos])))
    }
}

/// Largest value plus one that the varint encoding can carry.
pub const VARINT_LIMIT: u32 = 0x400_0000;

/// The minimal varint encoding of `x`: six bits in the first byte, then the
/// rest in eight-bit bytes that each advance by six bits.
pub open spec fn varint_bytes(x: u32) -> Seq<u8> {
    if x < 0x40 {
        seq![x as u8]
    } else if x < 0x4000 {
        seq![((x & 0x3f) | 0x40) as u8, ((x >> 6u32) & 0xff) as u8]
    } else if x < 0x10_0000 {
        seq![((x & 0x3f) | 0x80) as u8, ((x >> 6u32) & 0xff) as u8, ((x >> 12u32) & 0xff) as u8]
    } else {
        seq![
            ((x & 0x3f) | 0xc0) as u8,
            ((x >> 6u32) & 0xff) as u8,
            ((x >> 12u32) & 0xff) as u8,
            ((x >> 18u32) & 0xff) as u8,
        ]
    }
}

/// Encoding as a varint.
pub trait VarInt: Sized {
    /// Whether the value fits the encoding.
    spec fn fits_varint(self) -> bool;

    /// The bytes that encode the value.
    spec fn varint_encoding(self) -> Seq<u8>;

    fn encode_var(self) -> (r: Vec<u8>)
        requires
            self.fits_varint(),
        ensures
            r@ == self.varint_encoding(),
    ;
}

impl VarInt for u32 {
    open spec fn fits_varint(self) -> bool {
        self < VARINT_LIMIT
    }

    open spec fn varint_encoding(self) -> Seq<u8> {
        varint_bytes(self)
    }

    fn encode_var(self) -> (r: Vec<u8>) {
        let x = self;
        let mut result: Vec<u8> = Vec::new();
        if x < 0x40 {
            result.push(x as u8);
        } else if x < 0x4000 {
            result.push(((x & 0x3f) | 0x40) as u8);
            result.push(((x >> 6u32) & 0xff) as u8);
        } else if x < 0x10_0000 {
            result.push(((x & 0x3f) | 0x80) as u8);
            result.push(((x >> 6u32) & 0xff) as u8);
            result.push(((x >> 12u32) & 0xff) as u8);
        } else {
            result.push(((x & 0x3f) | 0xc0) as u8);
            result.push(((x >> 6u32) & 0xff) as u8);
            result.push(((x >> 12u32) & 0xff) as u8);
            result.push(((x >> 18u32) & 0xff) as u8);
        }
        assert(result@ =~= varint_bytes(x));
        result
    }
}

impl<'a> ByteReader<'a> {
    pub fn new(bytes: &'a [u8]) -> (r: Self)
        ensures
            r.bytes@ == bytes@,
            r.pos == 0,
    {
        ByteReader { bytes, pos: 0 }
    }

    pub fn read_u8(&mut self) -> (r: Result<u8, StreamError>)
        ensures
            final(self).bytes == old(self).bytes,
            old(self).pos < old(self).bytes@.len() ==> r == Ok::<u8, StreamError>(
                old(self).bytes@[old(self).pos as int],
            ) && final(self).pos == old(self).pos + 1,
            old(self).pos >= old(self).bytes@.len() ==> r == Err::<u8, StreamError>(
                StreamError::UnexpectedEof,
            ) && final(self).pos == old(self).pos,
    {
        if self.pos < self.bytes.len() {
            let b = self.bytes[self.pos];
            self.pos = self.pos + 1;
            Ok(b)
        } else {
            Err(StreamError::UnexpectedEof)
        }
    }
}

/// The little-endian 16-bit value at `pos`.
pub open spec fn le_u16_at(inp: Seq<u8>, pos: int) -> u16 {
    (inp[pos] as u16) | ((inp[pos + 1] as u16) << 8u16)
}

/// The little-endian 32-bit value at `pos`.
pub open spec fn le_u32_at(inp: Seq<u8>, pos: int) -> u32 {
    (inp[pos] as u32) | ((inp[pos + 1] as u32) << 8u32) | ((inp[pos + 2] as u32) << 16u32) | ((
    inp[pos + 3] as u32) << 24u32)
}

/// The little-endian bytes of `v`.
pub open spec fn le_u32_bytes(v: u32) -> Seq<u8> {
    seq![
        (v & 0xff) as u8,
        ((v >> 8u32) & 0xff) as u8,
        ((v >> 16u32) & 0xff) as u8,
        ((v >> 24u32) & 0xff) as u8,
    ]
}

impl<'a> ByteReader<'a> {
    pub fn read_u16_le(&mut self) -> (r: Result<u16, StreamError>)
        ensures
            final(self).bytes == old(self).bytes,
            old(self).pos + 2 <= old(self).bytes@.len() ==> r == Ok::<u16, StreamError>(
                le_u16_at(old(self).bytes@, old(self).pos as int),
            ) && final(self).pos == old(self).pos + 2,
            old(self).pos + 2 > old(self).bytes@.len() ==> r == Err::<u16, StreamError>(
                StreamError::UnexpectedEof,
            ),
    {
        let lo = self.read_u8()?;
        let hi = self.read_u8()?;
        Ok((lo as u16) | ((hi as u16) << 8u16))
    }

    pub fn read_u32_le(&mut self) -> (r: Result<u32, StreamError>)
        ensures
            final(self).bytes == old(self).bytes,
            old(self).pos + 4 <= old(self).bytes@.len() ==> r == Ok::<u32, StreamError>(
                le_u32_at(old(self).bytes@, old(self).pos as int),
            ) && final(self).pos == old(self).pos + 4,
            old(self).pos + 4 > old(self).bytes@.len() ==> r == Err::<u32, StreamError>(
                StreamError::UnexpectedEof,
            ),
    {
        let b0 = self.read_u8()?;
        let b1 = self.read_u8()?;
        let b2 = self.read_u8()?;
        let b3 = self.read_u8()?;
        Ok((b0 as u32) | ((b1 as u32) << 8u32) | ((b2 as u32) << 16u32) | ((b3 as u32) << 24u32))
    }

    /// The next `n` bytes.
    pub fn read_bytes(&mut self, n: usize) -> (r: Result<Vec<u8>, StreamError>)
        ensures
            final(self).bytes == old(self).bytes,
            old(self).pos + n <= old(self).bytes@.len() ==> r is Ok && r->Ok_0@
                == old(self).bytes@.subrange(old(self).pos as int, old(self).pos + n)
                && final(self).pos == old(self).pos + n,
            old(self).pos + n > old(self).bytes@.len() ==> r == Err::<Vec<u8>, StreamError>(
                StreamError::UnexpectedEof,
            ),
    {
        if n > self.bytes.len() || self.pos > self.bytes.len() - n {
            return Err(StreamError::UnexpectedEof);
        }
        let start = self.pos;
        let mut out: Vec<u8> = Vec::new();
        let mut i: usize = 0;
        while i < n
            invariant
                self.bytes == old(self).bytes,
                start == old(self).pos,
                start + n <= self.bytes@.len(),
                i <= n,
                self.pos == start + i,
                out@ == self.bytes@.subrange(start as int, start + i),
            decreases n - i,
        {
            out.push(self.bytes[self.pos]);
            self.pos = self.pos + 1;
            i = i + 1;
            assert(out@ =~= self.bytes@.subrange(start as int, start + i));
        }
        Ok(out)
    }

    /// Everything left; the reader is then at the end.
    pub fn read_to_end(&mut self) -> (r: Vec<u8>)
        requires
            old(self).pos <= old(self).bytes@.len(),
        ensures
            final(self).bytes == old(self).bytes,
            final(self).pos == old(self).bytes@.len(),
            r@ == old(self).bytes@.subrange(old(self).pos as int, old(self).bytes@.len() as int),
    {
        let n = self.bytes.len() - self.pos;
        match self.read_bytes(n) {
            Ok(v) => v,
            Err(_) => Vec::new(),
        }
    }
}

/// Decoding a varint from a stream.
pub trait VarIntReader: Sized {
    /// The value read and the stream after it, or `None` when the stream
    /// ends first.
    spec fn varint_ahead(self) -> Option<(u32, Self)>;

    fn read_varint(&mut self) -> (r: Result<u32, StreamError>)
        ensures
            match old(self).varint_ahead() {
                Some((v, next)) => r == Ok::<u32, StreamError>(v) && *final(self) == next,
                None => r == Err::<u32, StreamError>(StreamError::UnexpectedEof),
            },
    ;
}

impl<'a> VarIntReader for ByteReader<'a> {
    open spec fn varint_ahead(self) -> Option<(u32, Self)> {
        match varint_at(self.bytes@, self.pos as int) {
            Some((v, next)) => Some((v, ByteReader { bytes: self.bytes, pos: next as usize })),
            None => None,
        }
    }

    fn read_varint(&mut self) -> (r: Result<u32, StreamError>) {
        let ghost inp = self.bytes@;
        let ghost start = self.pos as int;
        let data = self.read_u8()?;
        let size = data >> 6u8;
        assert(data >> 6u8 <= 3) by (bit_vector);
        let mut result: u32 = (data & 0x3f) as u32;
        let mut i: u8 = 0;
        while i < size
            invariant
                self.bytes@ == inp,
                self.bytes == old(self).bytes,
                start == old(self).pos,
                start < inp.len(),
                data == inp[start],
                size == data >> 6u8,
                size <= 3,
                i <= size,
                self.pos == start + 1 + i,
                self.pos <= inp.len(),
                result == varint_partial(inp, start, i as nat),
            decreases size - i,
        {
            let b = match self.read_u8() {
                Ok(b) => b,
                Err(e) => {
                    proof {
                        assert(varint_at(inp, start) is None);
                    }
                    return Err(e);
                },
            };
            result = result | ((b as u32) << ((i as u32 + 1) * 6));
            i = i + 1;
        }
        assert(varint_extra(inp[start]) == size as nat);
        assert(varint_at(inp, start) == Some((result, start + 1 + size as int)));
        Ok(result)
    }
}

proof fn lemma_varint_bits(x: u32)
    by (bit_vector)
    requires
        x < VARINT_LIMIT,
    ensures
        x < 0x40 ==> (x as u8) >> 6u8 == 0 && ((x as u8) & 0x3f) as u32 == x,
        0x40 <= x < 0x4000 ==> ((((x & 0x3f) | 0x40) as u8) >> 6u8) == 1 && (((((x & 0x3f)
            | 0x40) as u8) & 0x3f) as u32 | ((((x >> 6u32) & 0xff) as u8) as u32) << 6u32) == x,
        0x4000 <= x < 0x10_0000 ==> ((((x & 0x3f) | 0x80) as u8) >> 6u8) == 2 && (((((x & 0x3f)
            | 0x80) as u8) & 0x3f) as u32 | ((((x >> 6u32) & 0xff) as u8) as u32) << 6u32 | ((((x
            >> 12u32) & 0xff) as u8) as u32) << 12u32) == x,
        0x10_0000 <= x ==> ((((x & 0x3f) | 0xc0) as u8) >> 6u8) == 3 && (((((x & 0x3f) | 0xc0)
            as u8) & 0x3f) as u32 | ((((x >> 6u32) & 0xff) as u8) as u32) << 6u32 | ((((x
            >> 12u32) & 0xff) as u8) as u32) << 12u32 | ((((x >> 18u32) & 0xff) as u8) as u32)
            << 18u32) == x,
{
}

/// A varint written by `encode_var` reads back as the value it encodes,
/// whatever stands before and after it.
pub proof fn lemma_varint_round_trip(x: u32, before: Seq<u8>, after: Seq<u8>)
    requires
        x < VARINT_LIMIT,
    ensures
        varint_at(before + varint_bytes(x) + after, before.len() as int) == Some(
            (x, before.len() + varint_bytes(x).len() as int),
        ),
{
    let inp = before + varint_bytes(x) + after;
    let p = before.len() as int;
    let e = varint_bytes(x);
    lemma_varint_bits(x);
    assert(inp[p] == e[0]);
    assert(varint_extra(inp[p]) + 1 == e.len());
    assert forall|i: int| 0 <= i < e.len() implies inp[p + i] == e[i] by {}
    assert(varint_partial(inp, p, 0) == (e[0] & 0x3f) as u32);
    if e.len() >= 2 {
        assert(varint_partial(inp, p, 1) == varint_partial(inp, p, 0) | ((e[1] as u32) << 6u32));
    }
    if e.len() >= 3 {
        assert(varint_partial(inp, p, 2) == varint_partial(inp, p, 1) | ((e[2] as u32) << 12u32));
    }
    if e.len() >= 4 {
        assert(varint_partial(inp, p, 3) == varint_partial(inp, p, 2) | ((e[3] as u32) << 18u32));
    }
}


/// Where a file of the game's data directory lies in an unpacked copy.
pub fn filesystem_standard_data_path(filename: &str) -> (r: String)
    ensures
        r@ == "data/data/"@ + filename@,
{
    fs_std_data_path(filename)
}

/// Where a decompressed overlay lies in an unpacked copy.
pub fn filesystem_standard_overlay_path(overlay_number: u32) -> (r: String)
    ensures
        r@ == "data/overlay.dec/overlay_"@ + zero_padded(overlay_number as nat, 4) + ".dec.bin"@,
{
    fs_std_overlay_path(overlay_number)
}

/// A copy of `data`.
pub fn copy_bytes(data: &[u8]) -> (r: Vec<u8>)
    ensures
        r@ == data@,
{
    let mut r: Vec<u8> = Vec::new();
    let mut i: usize = 0;
    while i < data.len()
        invariant
            i <= data@.len(),
            r@ == data@.take(i as int),
        decreases data@.len() - i,
    {
        r.push(data[i]);
        i = i + 1;
        assert(r@ =~= data@.take(i as int));
    }
    assert(data@.take(i as int) =~= data@);
    r
}

/// Bytes that are stored either as they are or compressed.
#[derive(Debug, Clone, PartialEq, Eq, Hash)]
pub enum MaybeCompressedData {
    Uncompressed(Vec<u8>),
    Compressed(Vec<u8>),
}

impl MaybeCompressedData {
    /// The plain bytes.
    pub fn to_uncompressed(&self, strict: bool) -> (r: Result<Vec<u8>, DecompressionError>)
        ensures
            match *self {
                MaybeCompressedData::Uncompressed(d) => r is Ok && r->Ok_0@ == d@,
                MaybeCompressedData::Compressed(d) => match decompressed(d@, strict) {
                    Ok(v) => r is Ok && r->Ok_0@ == v,
                    Err(e) => r == Err::<Vec<u8>, DecompressionError>(e),
                },
            },
    {
        match self {
            MaybeCompressedData::Uncompressed(data) => Ok(copy_bytes(data.as_slice())),
            MaybeCompressedData::Compressed(data) => decompress(data.as_slice(), strict),
        }
    }

    /// Decompresses the data in place unless it is plain already; on an
    /// error it is left as it was.
    pub fn make_uncompressed(&mut self, strict: bool) -> (r: Result<(), DecompressionError>)
        ensures
            match *old(self) {
                MaybeCompressedData::Uncompressed(d) => r is Ok && *final(self) == *old(self),
                MaybeCompressedData::Compressed(d) => match decompressed(d@, strict) {
                    Ok(v) => r is Ok && (*final(self)) is Uncompressed && (*final(self))->Uncompressed_0@ == v,
                    Err(e) => r == Err::<(), DecompressionError>(e) && *final(self) == *old(self),
                },
            },
    {
        let plain = match self {
            MaybeCompressedData::Uncompressed(_) => return Ok(()),
            MaybeCompressedData::Compressed(data) => decompress(data.as_slice(), strict)?,
        };
        *self = MaybeCompressedData::Uncompressed(plain);
        Ok(())
    }

    /// The compressed bytes.
    pub fn to_compressed(&self) -> (r: Result<Vec<u8>, CompressionError>)
        ensures
            match *self {
                MaybeCompressedData::Compressed(d) => r is Ok && r->Ok_0@ == d@,
                MaybeCompressedData::Uncompressed(d) => if d@.len() < VARINT_LIMIT {
                    r is Ok && r->Ok_0@ == compressed(d@)
                } else {
                    r == Err::<Vec<u8>, CompressionError>(CompressionError::TryFromInt)
                },
            },
    {
        match self {
            MaybeCompressedData::Compressed(data) => Ok(copy_bytes(data.as_slice())),
            MaybeCompressedData::Uncompressed(data) => compress(data.as_slice()),
        }
    }

    /// Compresses the data in place unless it is compressed already; on an
    /// error it is left as it was.
    pub fn make_compressed(&mut self) -> (r: Result<(), CompressionError>)
        ensures
            match *old(self) {
                MaybeCompressedData::Compressed(d) => r is Ok && *final(self) == *old(self),
                MaybeCompressedData::Uncompressed(d) => if d@.len() < VARINT_LIMIT {
                    r is Ok && (*final(self)) is Compressed && (*final(self))->Compressed_0@
                        == compressed(d@)
                } else {
                    r == Err::<(), CompressionError>(CompressionError::TryFromInt) && *final(self) == *old(self)
                },
            },
    {
        let packed = match self {
            MaybeCompressedData::Compressed(_) => return Ok(()),
            MaybeCompressedData::Uncompressed(data) => compress(data.as_slice())?,
        };
        *self = MaybeCompressedData::Compressed(packed);
        Ok(())
    }
}

/// A value kept as bytes until it is needed.
#[derive(Debug, Clone, PartialEq, Eq, Hash)]
pub enum MaybeSerialized<T> {
    Serialized(Vec<u8>),
    Deserialized(T),
}

/// A colour with five bits per channel: red in bits 0-4, green in 5-9, blue
/// in 10-14; bit 15 is unused.
#[derive(Debug, Clone, Copy, PartialEq, Eq, PartialOrd, Ord, Hash, Default)]
pub struct Rgb555 {
    bits: u16,
}

impl View for Rgb555 {
    type V = u16;

    closed spec fn view(&self) -> u16 {
        self.bits
    }
}

/// Five bits of `bits` from bit `shift` on.
pub open spec fn field5(bits: u16, shift: u16) -> u8 {
    ((bits >> shift) & 0x1f) as u8
}

/// The bits of a colour with the given channels and the unused bit clear.
pub open spec fn rgb555_bits(r: u8, g: u8, b: u8) -> u16 {
    (r as u16) | ((g as u16) << 5u16) | ((b as u16) << 10u16)
}

proof fn lemma_rgb555_fields(r: u8, g: u8, b: u8)
    by (bit_vector)
    requires
        r < 32,
        g < 32,
        b < 32,
    ensures
        field5(rgb555_bits(r, g, b), 0) == r,
        field5(rgb555_bits(r, g, b), 5) == g,
        field5(rgb555_bits(r, g, b), 10) == b,
        rgb555_bits(r, g, b) >> 15u16 == 0,
{
}

impl Rgb555 {
    pub open spec fn spec_r(self) -> u8 {
        field5(self@, 0)
    }

    pub open spec fn spec_g(self) -> u8 {
        field5(self@, 5)
    }

    pub open spec fn spec_b(self) -> u8 {
        field5(self@, 10)
    }

    /// The colour with the given channels; each must fit in five bits.
    pub fn new(r: u8, g: u8, b: u8) -> (c: Self)
        requires
            r < 32,
            g < 32,
            b < 32,
        ensures
            c@ == rgb555_bits(r, g, b),
            c.spec_r() == r,
            c.spec_g() == g,
            c.spec_b() == b,
    {
        proof {
            lemma_rgb555_fields(r, g, b);
        }
        Rgb555 { bits: (r as u16) | ((g as u16) << 5u16) | ((b as u16) << 10u16) }
    }

    /// The colour with the given channels, or an error when one does not fit
    /// in five bits.
    pub fn new_checked(r: u8, g: u8, b: u8) -> (c: Result<Self, ()>)
        ensures
            r < 32 && g < 32 && b < 32 ==> c is Ok && c->Ok_0@ == rgb555_bits(r, g, b),
            !(r < 32 && g < 32 && b < 32) ==> c is Err,
    {
        if r < 32 && g < 32 && b < 32 {
            Ok(Self::new(r, g, b))
        } else {
            Err(())
        }
    }

    pub fn from_bits(bits: u16) -> (c: Self)
        ensures
            c@ == bits,
    {
        Rgb555 { bits }
    }

    pub fn into_bits(self) -> (r: u16)
        ensures
            r == self@,
    {
        self.bits
    }

    pub fn r(self) -> (r: u8)
        ensures
            r == self.spec_r(),
    {
        ((self.bits >> 0u16) & 0x1f) as u8
    }

    pub fn g(self) -> (r: u8)
        ensures
            r == self.spec_g(),
    {
        ((self.bits >> 5u16) & 0x1f) as u8
    }

    pub fn b(self) -> (r: u8)
        ensures
            r == self.spec_b(),
    {
        ((self.bits >> 10u16) & 0x1f) as u8
    }

    /// The colour that `from_rgb888` gives.
    pub closed spec fn spec_from_rgb888(c: Rgb888) -> Self {
        Rgb555 { bits: rgb555_bits(c.r >> 3u8, c.g >> 3u8, c.b >> 3u8) }
    }

    /// The colour nearest below an eight-bit-per-channel one: each channel
    /// keeps its top five bits.
    pub fn from_rgb888(c: Rgb888) -> (r: Self)
        ensures
            r@ == rgb555_bits(c.r >> 3u8, c.g >> 3u8, c.b >> 3u8),
            r == Self::spec_from_rgb888(c),
    {
        let (r, g, b) = (c.r, c.g, c.b);
        assert(r >> 3u8 < 32 && g >> 3u8 < 32 && b >> 3u8 < 32) by (bit_vector);
        Self::new(r >> 3u8, g >> 3u8, b >> 3u8)
    }

    /// The colour with eight bits per channel: each channel shifted up by
    /// three bits.
    pub fn to_rgb888(self) -> (r: Rgb888)
        ensures
            r == (Rgb888 {
                r: ((self.spec_r() as u16) << 3u16) as u8,
                g: ((self.spec_g() as u16) << 3u16) as u8,
                b: ((self.spec_b() as u16) << 3u16) as u8,
            }),
    {
        let r = self.r();
        let g = self.g();
        let b = self.b();
        Rgb888 {
            r: ((r as u16) << 3u16) as u8,
            g: ((g as u16) << 3u16) as u8,
            b: ((b as u16) << 3u16) as u8,
        }
    }
}

/// A colour with eight bits per channel.
#[derive(Debug, Clone, Copy, PartialEq, Eq, Hash, Default, Structural)]
pub struct Rgb888 {
    pub r: u8,
    pub g: u8,
    pub b: u8,
}

/// A colour with eight bits per channel and an alpha channel.
#[derive(Debug, Clone, Copy, PartialEq, Eq, Hash, Default, Structural)]
pub struct Rgba8888 {
    pub r: u8,
    pub g: u8,
    pub b: u8,
    pub a: u8,
}

/// A list of colours; colour 0 stands for transparency.
#[derive(Debug, Clone, PartialEq, Eq, Hash, Default)]
pub struct Palette(pub Vec<Rgb555>);

#[derive(Debug, Clone, Copy, PartialEq, Eq, Structural)]
pub enum PaletteDeserializationError {
    ExtraBytesInInput,
}

/// The little-endian bytes of `colors`, two per colour.
pub open spec fn palette_bytes(colors: Seq<Rgb555>) -> Seq<u8> {
    Seq::new(
        2 * colors.len(),
        |i: int|
            if i % 2 == 0 {
                (colors[i / 2]@ & 0xff) as u8
            } else {
                (colors[i / 2]@ >> 8u16) as u8
            },
    )
}

/// The colour stored little-endian at `data[2 * i..2 * i + 2]`.
pub open spec fn palette_color_bits(data: Seq<u8>, i: int) -> u16 {
    (data[2 * i] as u16) | ((data[2 * i + 1] as u16) << 8u16)
}

impl Palette {
    /// Reads two little-endian bytes per colour; an odd length is refused.
    pub fn from_bytes(data: &[u8]) -> (r: Result<Self, PaletteDeserializationError>)
        ensures
            data@.len() % 2 != 0 ==> r == Err::<Self, PaletteDeserializationError>(
                PaletteDeserializationError::ExtraBytesInInput,
            ),
            data@.len() % 2 == 0 ==> r is Ok && r->Ok_0.0@.len() == data@.len() / 2 && forall|
                i: int,
            |
                0 <= i < data@.len() / 2 ==> (#[trigger] r->Ok_0.0@[i])@ == palette_color_bits(
                    data@,
                    i,
                ),
    {
        if data.len() % 2 != 0 {
            return Err(PaletteDeserializationError::ExtraBytesInInput);
        }
        let len = data.len();
        let n = len / 2;
        assert(2 * n == len);
        let mut colors: Vec<Rgb555> = Vec::new();
        let mut i: usize = 0;
        while i < n
            invariant
                n == data@.len() / 2,
                2 * n == len,
                len == data@.len(),
                data@.len() % 2 == 0,
                i <= n,
                colors@.len() == i,
                forall|j: int| 0 <= j < i ==> (#[trigger] colors@[j])@ == palette_color_bits(data@, j),
            decreases n - i,
        {
            let lo = data[2 * i];
            let hi = data[2 * i + 1];
            colors.push(Rgb555::from_bits((lo as u16) | ((hi as u16) << 8u16)));
            i = i + 1;
        }
        Ok(Palette(colors))
    }

    /// Two little-endian bytes per colour.
    pub fn to_bytes(&self) -> (r: Vec<u8>)
        ensures
            r@ == palette_bytes(self.0@),
    {
        let mut out: Vec<u8> = Vec::new();
        let mut i: usize = 0;
        while i < self.0.len()
            invariant
                i <= self.0@.len(),
                out@ == palette_bytes(self.0@.take(i as int)),
            decreases self.0@.len() - i,
        {
            let bits = self.0[i].into_bits();
            out.push((bits & 0xff) as u8);
            out.push((bits >> 8u16) as u8);
            i = i + 1;
            assert(out@ =~= palette_bytes(self.0@.take(i as int)));
        }
        assert(self.0@.take(i as int) =~= self.0@);
        out
    }

    /// Colour `index` with eight bits per channel; colour 0 is transparent,
    /// the others opaque.
    pub fn color_as_rgba8888(&self, index: usize) -> (r: Rgba8888)
        requires
            index < self.0@.len(),
        ensures
            r.r == ((self.0@[index as int].spec_r() as u16) << 3u16) as u8,
            r.g == ((self.0@[index as int].spec_g() as u16) << 3u16) as u8,
            r.b == ((self.0@[index as int].spec_b() as u16) << 3u16) as u8,
            r.a == if index == 0 {
                0u8
            } else {
                0xffu8
            },
    {
        let c = self.0[index].to_rgb888();
        Rgba8888 { r: c.r, g: c.g, b: c.b, a: if index == 0 { 0x00 } else { 0xff } }
    }
}


/// A table of little-endian 32-bit offsets, then the chunks they delimit,
/// then whatever follows the last chunk.
#[derive(Debug, Clone, PartialEq, Eq, Hash)]
pub struct DataWithOffsetTable {
    pub chunks: Vec<Vec<u8>>,
    pub footer: Vec<u8>,
}

#[derive(Debug, Clone, Copy, PartialEq, Eq, Structural)]
pub enum DataWithOffsetTableDeserializationError {
    TryFromInt(TryFromIntError),
    Io(StreamError),
}

#[derive(Debug, Clone, Copy, PartialEq, Eq, Structural)]
pub enum DataWithOffsetTableSerializationError {
    TryFromInt(TryFromIntError),
}

pub open spec fn table_eof<T>() -> Result<T, DataWithOffsetTableDeserializationError> {
    Err(DataWithOffsetTableDeserializationError::Io(StreamError::UnexpectedEof))
}

/// The chunks between consecutive offsets from `offs[k]` on, read in turn
/// from `pos`: the chunks and the position after them.
pub open spec fn table_chunks(inp: Seq<u8>, offs: Seq<u32>, k: nat, pos: nat) -> Result<
    (Seq<Seq<u8>>, nat),
    DataWithOffsetTableDeserializationError,
>
    decreases offs.len() - k,
{
    if k + 1 >= offs.len() {
        Ok((seq![], pos))
    } else if offs[k + 1int] < offs[k as int] {
        Err(DataWithOffsetTableDeserializationError::TryFromInt(TryFromIntError))
    } else if pos + (offs[k + 1int] - offs[k as int]) > inp.len() {
        table_eof()
    } else {
        let next = (pos + (offs[k + 1int] - offs[k as int])) as nat;
        match table_chunks(inp, offs, k + 1, next) {
            Err(e) => Err(e),
            Ok((rest, p)) => Ok((seq![inp.subrange(pos as int, next as int)] + rest, p)),
        }
    }
}

/// The offsets of a table at `pos` whose first offset is `first`: one
/// per four bytes up to `first`, and at least that one.
pub open spec fn table_offsets(inp: Seq<u8>, pos: int, first: u32) -> Seq<u32> {
    if first / 4 == 0 {
        seq![first]
    } else {
        Seq::new((first / 4) as nat, |i: int| le_u32_at(inp, pos + 4 * i))
    }
}

/// The table read from `pos`: its chunks and its footer.
pub open spec fn parsed_table(inp: Seq<u8>, pos: nat) -> Result<
    (Seq<Seq<u8>>, Seq<u8>),
    DataWithOffsetTableDeserializationError,
> {
    if pos + 4 > inp.len() {
        table_eof()
    } else {
        let first = le_u32_at(inp, pos as int);
        let offs = table_offsets(inp, pos as int, first);
        let body = pos + 4 * offs.len() + first % 4;
        if pos + 4 * offs.len() > inp.len() || body > inp.len() {
            table_eof()
        } else {
            match table_chunks(inp, offs, 0, body as nat) {
                Err(e) => Err(e),
                Ok((chunks, p)) => Ok((chunks, inp.subrange(p as int, inp.len() as int))),
            }
        }
    }
}

/// The views of `chunks`.
pub open spec fn chunk_views(chunks: Seq<Vec<u8>>) -> Seq<Seq<u8>> {
    chunks.map_values(|c: Vec<u8>| c@)
}

/// The total length of `chunks`.
pub open spec fn chunks_len(chunks: Seq<Seq<u8>>) -> nat
    decreases chunks.len(),
{
    if chunks.len() == 0 {
        0
    } else {
        chunks_len(chunks.drop_last()) + chunks.last().len()
    }
}

/// The chunks one after another.
pub open spec fn concat_chunks(chunks: Seq<Seq<u8>>) -> Seq<u8>
    decreases chunks.len(),
{
    if chunks.len() == 0 {
        seq![]
    } else {
        concat_chunks(chunks.drop_last()) + chunks.last()
    }
}

/// The offsets written before `chunks`: where each chunk starts, then
/// where the last one ends, counted from the start of the table.
pub open spec fn table_offsets_for(chunks: Seq<Seq<u8>>) -> Seq<u32> {
    Seq::new(
        chunks.len() + 1,
        |i: int| (4 * (chunks.len() + 1) + chunks_len(chunks.take(i))) as u32,
    )
}

/// Each value as four little-endian bytes.
pub open spec fn u32s_bytes(vals: Seq<u32>) -> Seq<u8>
    decreases vals.len(),
{
    if vals.len() == 0 {
        seq![]
    } else {
        u32s_bytes(vals.drop_last()) + le_u32_bytes(vals.last())
    }
}

/// `c` grown with zeros to a multiple of `alignment`, when one is given.
pub open spec fn aligned_chunk(c: Seq<u8>, alignment: Option<usize>) -> Seq<u8> {
    match alignment {
        Some(a) => c + Seq::new(padding_for(c.len(), a as nat), |i: int| 0u8),
        None => c,
    }
}

fn push_u32_le(out: &mut Vec<u8>, v: u32)
    ensures
        final(out)@ == old(out)@ + le_u32_bytes(v),
{
    out.push((v & 0xff) as u8);
    out.push(((v >> 8u32) & 0xff) as u8);
    out.push(((v >> 16u32) & 0xff) as u8);
    out.push(((v >> 24u32) & 0xff) as u8);
    assert(out@ =~= old(out)@ + le_u32_bytes(v));
}


/// Reads the chunks between consecutive `offsets` one after another.
pub fn read_table_chunks(inp: &mut ByteReader, offsets: &Vec<u32>) -> (r: Result<
    Vec<Vec<u8>>,
    DataWithOffsetTableDeserializationError,
>)
    requires
        old(inp).pos <= old(inp).bytes@.len(),
    ensures
        final(inp).bytes == old(inp).bytes,
        r is Ok ==> final(inp).pos <= final(inp).bytes@.len(),
        match table_chunks(old(inp).bytes@, offsets@, 0, old(inp).pos as nat) {
            Ok((chunks, end)) => r is Ok && chunk_views(r->Ok_0@) == chunks && final(inp).pos
                == end,
            Err(e) => r == Err::<Vec<Vec<u8>>, DataWithOffsetTableDeserializationError>(e),
        },
{
    let ghost data = inp.bytes@;
    let ghost offs = offsets@;
    let ghost target = table_chunks(data, offs, 0, inp.pos as nat);
    let mut chunks: Vec<Vec<u8>> = Vec::new();
    if offsets.len() == 0 {
        return Ok(chunks);
    }
    let mut i: usize = 0;
    assert(chunk_views(chunks@) =~= Seq::<Seq<u8>>::empty());
    while i < offsets.len() - 1
        invariant
            inp.bytes == old(inp).bytes,
            data == inp.bytes@,
            offsets@ == offs,
            offsets@.len() >= 1,
            i < offsets@.len(),
            inp.pos <= data.len(),
            target == table_chunks(data, offs, 0, old(inp).pos as nat),
            match target {
                Ok((all, end)) => match table_chunks(data, offs, i as nat, inp.pos as nat) {
                    Ok((rest, e2)) => e2 == end && all == chunk_views(chunks@) + rest,
                    Err(_) => false,
                },
                Err(e) => table_chunks(data, offs, i as nat, inp.pos as nat) == Err::<
                    (Seq<Seq<u8>>, nat),
                    DataWithOffsetTableDeserializationError,
                >(e),
            },
        decreases offsets@.len() - i,
    {
        let (cur, next) = (offsets[i], offsets[i + 1]);
        if next < cur {
            return Err(DataWithOffsetTableDeserializationError::TryFromInt(TryFromIntError));
        }
        let chunk = match inp.read_bytes((next - cur) as usize) {
            Ok(c) => c,
            Err(e) => return Err(DataWithOffsetTableDeserializationError::Io(e)),
        };
        let ghost before = chunks@;
        chunks.push(chunk);
        proof {
            assert(chunk_views(chunks@) =~= chunk_views(before) + seq![chunk@]);
            match target {
                Ok((all, end)) => {
                    let rest2 = table_chunks(data, offs, (i + 1) as nat, inp.pos as nat)->Ok_0.0;
                    assert(chunk_views(before) + (seq![chunk@] + rest2) =~= chunk_views(chunks@)
                        + rest2);
                },
                Err(_) => {},
            }
        }
        i = i + 1;
    }
    proof {
        assert(chunk_views(chunks@) + Seq::<Seq<u8>>::empty() =~= chunk_views(chunks@));
    }
    Ok(chunks)
}

impl DataWithOffsetTable {
    /// Reads a table: the first offset gives the table's length, each chunk
    /// runs to the next offset, and the footer is the rest of the input.
    pub fn from_reader(inp: &mut ByteReader) -> (r: Result<
        Self,
        DataWithOffsetTableDeserializationError,
    >)
        requires
            old(inp).pos <= old(inp).bytes@.len(),
        ensures
            final(inp).bytes == old(inp).bytes,
            match parsed_table(old(inp).bytes@, old(inp).pos as nat) {
                Ok((chunks, footer)) => r is Ok && chunk_views(r->Ok_0.chunks@) == chunks
                    && r->Ok_0.footer@ == footer && final(inp).pos == old(inp).bytes@.len(),
                Err(e) => r == Err::<Self, DataWithOffsetTableDeserializationError>(e),
            },
    {
        let ghost data = inp.bytes@;
        let ghost start = inp.pos;
        let first_offset = match inp.read_u32_le() {
            Ok(v) => v,
            Err(e) => return Err(DataWithOffsetTableDeserializationError::Io(e)),
        };
        let num_offsets = first_offset / 4;
        let padding = first_offset % 4;
        let ghost offs = table_offsets(data, start as int, first_offset);
        let mut offsets: Vec<u32> = Vec::new();
        offsets.push(first_offset);
        let mut k: u32 = 1;
        while k < num_offsets
            invariant
                inp.bytes == old(inp).bytes,
                data == inp.bytes@,
                start == old(inp).pos,
                num_offsets == first_offset / 4,
                first_offset == le_u32_at(data, start as int),
                start + 4 <= data.len(),
                offs == table_offsets(data, start as int, first_offset),
                1 <= k,
                num_offsets > 0 ==> k <= num_offsets,
                num_offsets == 0 ==> k == 1,
                inp.pos == start + 4 * k,
                offsets@.len() == k,
                forall|i: int| 0 <= i < k ==> #[trigger] offsets@[i] == le_u32_at(data, start + 4 * i),
            decreases num_offsets - k,
        {
            let v = match inp.read_u32_le() {
                Ok(v) => v,
                Err(e) => return Err(DataWithOffsetTableDeserializationError::Io(e)),
            };
            offsets.push(v);
            k = k + 1;
        }
        if num_offsets == 0 {
            assert(offsets@ =~= offs);
        } else {
            assert(k == num_offsets);
            assert(offs == Seq::new(
                (first_offset / 4) as nat,
                |i: int| le_u32_at(data, start + 4 * i),
            ));
            assert(offs.len() == offsets@.len());
            assert forall|i: int| 0 <= i < offs.len() implies offs[i] == offsets@[i] by {}
            assert(offsets@ =~= offs);
        }
        assert(inp.pos == start + 4 * offs.len());
        match inp.read_bytes(padding as usize) {
            Ok(_) => {},
            Err(e) => return Err(DataWithOffsetTableDeserializationError::Io(e)),
        }
        assert(parsed_table(data, start as nat) == match table_chunks(data, offs, 0, inp.pos as nat) {
            Err(e) => Err(e),
            Ok((c, p)) => Ok((c, data.subrange(p as int, data.len() as int))),
        });
        let chunks = read_table_chunks(inp, &offsets)?;
        let footer = inp.read_to_end();
        Ok(DataWithOffsetTable { chunks, footer })
    }

    /// Writes the table, the chunks and, when asked, the footer. With an
    /// alignment, each chunk is first grown in place to a multiple of it.
    /// Offsets must fit in 32 bits; when one does not, nothing is written.
    pub fn to_writer(
        &mut self,
        out: &mut Vec<u8>,
        chunk_alignment: Option<usize>,
        write_footer: bool,
    ) -> (r: Result<(), DataWithOffsetTableSerializationError>)
        requires
            chunk_alignment != Some(0usize),
        ensures
            final(self).footer == old(self).footer,
            final(self).chunks@.len() == old(self).chunks@.len(),
            forall|i: int|
                0 <= i < old(self).chunks@.len() ==> (#[trigger] final(self).chunks@[i])@
                    == aligned_chunk(old(self).chunks@[i]@, chunk_alignment),
            4 * (final(self).chunks@.len() + 1) + chunks_len(chunk_views(final(self).chunks@))
                <= u32::MAX ==> r is Ok && final(out)@ == old(out)@ + u32s_bytes(
                table_offsets_for(chunk_views(final(self).chunks@)),
            ) + concat_chunks(chunk_views(final(self).chunks@)) + (if write_footer {
                old(self).footer@
            } else {
                Seq::<u8>::empty()
            }),
            4 * (final(self).chunks@.len() + 1) + chunks_len(chunk_views(final(self).chunks@))
                > u32::MAX ==> r == Err::<(), DataWithOffsetTableSerializationError>(
                DataWithOffsetTableSerializationError::TryFromInt(TryFromIntError),
            ) && final(out)@ == old(out)@,
    {
        let n = self.chunks.len();
        if let Some(alignment) = chunk_alignment {
            let mut aligned: Vec<Vec<u8>> = Vec::new();
            let mut i: usize = 0;
            while i < n
                invariant
                    n == self.chunks@.len(),
                    self.chunks == old(self).chunks,
                    chunk_alignment == Some(alignment),
                    alignment > 0,
                    i <= n,
                    aligned@.len() == i,
                    forall|t: int|
                        0 <= t < i ==> (#[trigger] aligned@[t])@ == aligned_chunk(
                            old(self).chunks@[t]@,
                            chunk_alignment,
                        ),
                decreases n - i,
            {
                let mut chunk = copy_bytes(self.chunks[i].as_slice());
                chunk.align_to_elements(alignment);
                aligned.push(chunk);
                i = i + 1;
            }
            self.chunks = aligned;
        }
        assert forall|i: int|
            0 <= i < old(self).chunks@.len() implies (#[trigger] self.chunks@[i])@
            == aligned_chunk(old(self).chunks@[i]@, chunk_alignment) by {}
        let ghost views = chunk_views(self.chunks@);
        let ghost offs = table_offsets_for(views);
        let ghost aligned_chunks = self.chunks@;
        if n > 0x3fff_fffe {
            return Err(DataWithOffsetTableSerializationError::TryFromInt(TryFromIntError));
        }
        let mut table: Vec<u8> = Vec::new();
        let mut body: Vec<u8> = Vec::new();
        let mut current: u64 = ((n + 1) * 4) as u64;
        push_u32_le(&mut table, current as u32);
        proof {
            assert(views.take(0) =~= Seq::<Seq<u8>>::empty());
            assert(chunks_len(views.take(0)) == 0);
            assert(offs[0] == current as u32);
            assert(offs.take(1).drop_last() =~= Seq::<u32>::empty());
            assert(offs.take(1).last() == offs[0]);
            assert(u32s_bytes(offs.take(1)) =~= u32s_bytes(Seq::<u32>::empty()) + le_u32_bytes(
                offs[0],
            ));
        }
        let mut j: usize = 0;
        while j < n
            invariant
                n == self.chunks@.len(),
                n <= 0x3fff_fffe,
                self.chunks@ == aligned_chunks,
                self.footer == old(self).footer,
                n == old(self).chunks@.len(),
                forall|i: int|
                    0 <= i < old(self).chunks@.len() ==> (#[trigger] aligned_chunks[i])@
                        == aligned_chunk(old(self).chunks@[i]@, chunk_alignment),
                views == chunk_views(self.chunks@),
                offs == table_offsets_for(views),
                j <= n,
                current == 4 * (n + 1) + chunks_len(views.take(j as int)),
                current <= u32::MAX,
                table@ == u32s_bytes(offs.take(j + 1)),
                body@ == concat_chunks(views.take(j as int)),
            decreases n - j,
        {
            proof {
                assert(views.take(j + 1).drop_last() =~= views.take(j as int));
                assert(views[j as int] == self.chunks@[j as int]@);
            }
            if self.chunks[j].len() as u64 > u32::MAX as u64 - current {
                proof {
                    lemma_chunks_len_prefix(views, j + 1);
                }
                return Err(DataWithOffsetTableSerializationError::TryFromInt(TryFromIntError));
            }
            current = current + self.chunks[j].len() as u64;
            push_u32_le(&mut table, current as u32);
            extend_bytes(&mut body, &self.chunks[j]);
            proof {
                assert(offs.take(j + 2).drop_last() =~= offs.take(j + 1));
                assert(offs[j + 1] == current as u32);
            }
            j = j + 1;
        }
        proof {
            assert(views.take(n as int) =~= views);
            assert(offs.take(n + 1) =~= offs);
        }
        extend_bytes(out, &table);
        extend_bytes(out, &body);
        if write_footer {
            extend_bytes(out, &self.footer);
        }
        proof {
            assert(out@ =~= old(out)@ + u32s_bytes(offs) + concat_chunks(views) + (if write_footer {
                old(self).footer@
            } else {
                Seq::<u8>::empty()
            }));
        }
        Ok(())
    }
}

proof fn lemma_chunks_len_prefix(chunks: Seq<Seq<u8>>, j: int)
    requires
        0 <= j <= chunks.len(),
    ensures
        chunks_len(chunks.take(j)) <= chunks_len(chunks),
    decreases chunks.len() - j,
{
    if j < chunks.len() {
        lemma_chunks_len_prefix(chunks, j + 1);
        assert(chunks.take(j + 1).drop_last() =~= chunks.take(j));
    } else {
        assert(chunks.take(j) =~= chunks);
    }
}

/// Appends `bytes` to `out`.
pub(crate) fn extend_bytes(out: &mut Vec<u8>, bytes: &Vec<u8>)
    ensures
        final(out)@ == old(out)@ + bytes@,
{
    let mut i: usize = 0;
    while i < bytes.len()
        invariant
            i <= bytes@.len(),
            out@ == old(out)@ + bytes@.take(i as int),
        decreases bytes@.len() - i,
    {
        out.push(bytes[i]);
        i = i + 1;
        assert(out@ =~= old(out)@ + bytes@.take(i as int));
    }
    assert(bytes@.take(i as int) =~= bytes@);
}

} // verus!
