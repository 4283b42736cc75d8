//! The length-prefixed binary wire codec.
//!
//! Every value that travels between client and server implements
//! [`Serialize`] and [`Deserialize`].  The meaning of both directions is
//! pinned down at the specification level: `wire` gives the exact byte
//! sequence a value encodes to, and `parse` gives the exact outcome of
//! decoding any byte sequence.  Each implementation also proves the two
//! codec laws: decoding inverts encoding, and decoding only looks at the
//! prefix it consumes.

use vstd::prelude::*;

verus! {

/// Failure when encoding: the destination buffer cannot hold the encoding.
#[derive(Debug, Clone, Copy, PartialEq, Eq, Structural)]
pub enum SerializeError {
    BufferOverflow,
}

/// Failure when decoding: the bytes are not a valid encoding prefix.
#[derive(Debug, Clone, Copy, PartialEq, Eq, Structural)]
pub enum DeserializeError {
    Invalid,
}

/// Encoding side of the wire format.
///
/// `DeepView` is the bridge to the mathematical model: decoding is specified
/// on the fully abstract value (`Seq` in place of `Vec`), so that compound
/// values can be spoken about in specifications.
pub trait Serialize: Sized + DeepView {
    /// Whether the value can be encoded at all (every sequence inside it
    /// must fit the one-byte length prefix, i.e. hold at most 255 items).
    spec fn wf(&self) -> bool;

    /// The exact bytes this value encodes to.
    spec fn wire(&self) -> Seq<u8>;

    /// Whether a failed encode is guaranteed to leave the whole buffer
    /// untouched.  The fixed-width atoms test for room before writing
    /// anything, so they fail cleanly; compound values write left to
    /// right and may leave a partial prefix when a later part does not
    /// fit.
    spec fn overflow_leaves_buffer() -> bool;

    /// Write the encoding into `buffer` starting at `pos`; return how many
    /// bytes were written.  Bytes before `pos` are never touched; on success
    /// the bytes after the encoding are untouched as well.  Fails exactly
    /// when the encoding does not fit.
    fn serialize_at(&self, buffer: &mut [u8], pos: usize) -> (r: Result<usize, SerializeError>)
        requires
            self.wf(),
            pos <= old(buffer)@.len(),
        ensures
            final(buffer)@.len() == old(buffer)@.len(),
            final(buffer)@.subrange(0, pos as int) == old(buffer)@.subrange(0, pos as int),
            match r {
                Ok(n) => {
                    &&& n == self.wire().len()
                    &&& pos + n <= final(buffer)@.len()
                    &&& final(buffer)@.subrange(pos as int, pos + n) == self.wire()
                    &&& final(buffer)@.skip(pos + n) == old(buffer)@.skip(pos + n)
                },
                Err(e) => {
                    &&& e == SerializeError::BufferOverflow
                    &&& pos + self.wire().len() > old(buffer)@.len()
                    &&& (Self::overflow_leaves_buffer() ==> final(buffer)@ == old(buffer)@)
                },
            },
    ;

    /// Write the encoding at the start of `buffer`.
    fn serialize(&self, buffer: &mut [u8]) -> (r: Result<usize, SerializeError>)
        requires
            self.wf(),
        ensures
            final(buffer)@.len() == old(buffer)@.len(),
            match r {
                Ok(n) => {
                    &&& n == self.wire().len()
                    &&& n <= final(buffer)@.len()
                    &&& final(buffer)@.subrange(0, n as int) == self.wire()
                    &&& final(buffer)@.skip(n as int) == old(buffer)@.skip(n as int)
                },
                Err(e) => {
                    &&& e == SerializeError::BufferOverflow
                    &&& self.wire().len() > old(buffer)@.len()
                    &&& (Self::overflow_leaves_buffer() ==> final(buffer)@ == old(buffer)@)
                },
            },
    {
        self.serialize_at(buffer, 0)
    }
}

/// Decoding side of the wire format.
pub trait Deserialize: Serialize {
    /// The exact outcome of decoding `buf`: the decoded value (abstractly,
    /// as its deep view) and the count of bytes consumed, or `None` when
    /// `buf` is not a valid encoding prefix.
    spec fn parse(buf: Seq<u8>) -> Option<(<Self as DeepView>::V, int)>;

    /// Decode one value from the front of `buf`.
    fn deserialize(buf: &[u8]) -> (r: Result<(Self, usize), DeserializeError>)
        ensures
            match r {
                Ok((v, n)) => {
                    &&& n <= buf@.len()
                    &&& Self::parse(buf@) == Some((v.deep_view(), n as int))
                    &&& v.wf()
                },
                Err(e) => e == DeserializeError::Invalid && Self::parse(buf@) is None,
            },
    ;

    /// Law: decoding inverts encoding.  A buffer that begins with the
    /// encoding of a well-formed value decodes to that value, consuming
    /// exactly the encoding.
    proof fn lemma_parse_wire(v: Self, rest: Seq<u8>)
        requires
            v.wf(),
        ensures
            Self::parse(v.wire() + rest) == Some((v.deep_view(), v.wire().len() as int)),
    ;

    /// Law: decoding consumes a prefix and never looks past it, so
    /// extending the buffer cannot change a successful decode.
    proof fn lemma_parse_prefix(buf: Seq<u8>, ext: Seq<u8>)
        ensures
            Self::parse(buf) matches Some((v, n)) ==> {
                &&& 0 <= n <= buf.len()
                &&& Self::parse(buf + ext) == Some((v, n))
            },
    ;
}

/// Law: truncating the encoding of any well-formed value makes it invalid.
pub proof fn lemma_truncated_wire_invalid<T: Deserialize>(v: T, k: int)
    requires
        v.wf(),
        0 <= k < v.wire().len(),
    ensures
        T::parse(v.wire().subrange(0, k)) is None,
{
    let trunc = v.wire().subrange(0, k);
    match T::parse(trunc) {
        Some((v2, n2)) => {
            T::lemma_parse_prefix(trunc, v.wire().skip(k));
            assert(trunc + v.wire().skip(k) =~= v.wire());
            T::lemma_parse_wire(v, Seq::<u8>::empty());
            assert(v.wire() + Seq::<u8>::empty() =~= v.wire());
            assert(false);
        },
        None => {},
    }
}

/// Two sequences that agree on a prefix agree on any part of it.
pub(crate) proof fn lemma_subrange_of_prefix<T>(a: Seq<T>, b: Seq<T>, k: int, i: int, j: int)
    requires
        a.len() == b.len(),
        0 <= i <= j <= k <= a.len(),
        a.subrange(0, k) == b.subrange(0, k),
    ensures
        a.subrange(i, j) == b.subrange(i, j),
{
    assert forall|m: int| 0 <= m < j - i implies a.subrange(i, j)[m] == b.subrange(i, j)[m] by {
        assert(a.subrange(0, k)[i + m] == a[i + m]);
        assert(b.subrange(0, k)[i + m] == b[i + m]);
        assert(a.subrange(i, j)[m] == a[i + m]);
        assert(b.subrange(i, j)[m] == b[i + m]);
    }
    assert(a.subrange(i, j) =~= b.subrange(i, j));
}

/// Two sequences that agree from `k1` on agree from any later point on.
pub(crate) proof fn lemma_skip_of_suffix<T>(a: Seq<T>, b: Seq<T>, k1: int, k2: int)
    requires
        a.len() == b.len(),
        0 <= k1 <= k2 <= a.len(),
        a.skip(k1) == b.skip(k1),
    ensures
        a.skip(k2) == b.skip(k2),
{
    assert forall|m: int| 0 <= m < a.len() - k2 implies a.skip(k2)[m] == b.skip(k2)[m] by {
        assert(a.skip(k1)[k2 - k1 + m] == b.skip(k1)[k2 - k1 + m]);
    }
    assert(a.skip(k2) =~= b.skip(k2));
}

/// Adjacent parts of a sequence concatenate to the enclosing part.
pub(crate) proof fn lemma_subrange_concat<T>(a: Seq<T>, i: int, j: int, k: int)
    requires
        0 <= i <= j <= k <= a.len(),
    ensures
        a.subrange(i, k) == a.subrange(i, j) + a.subrange(j, k),
{
    assert(a.subrange(i, k) =~= a.subrange(i, j) + a.subrange(j, k));
}

/// Write one byte at `pos`, reporting whether it fit.
pub(crate) fn write_byte(buffer: &mut [u8], pos: usize, b: u8) -> (ok: bool)
    ensures
        final(buffer)@.len() == old(buffer)@.len(),
        old(buffer)@.len() <= usize::MAX,
        ok ==> pos < old(buffer)@.len() && final(buffer)@ == old(buffer)@.update(pos as int, b),
        !ok ==> final(buffer)@ == old(buffer)@ && pos >= old(buffer)@.len(),
{
    if pos < buffer.len() {
        buffer[pos] = b;
        true
    } else {
        false
    }
}

impl Serialize for u8 {
    open spec fn overflow_leaves_buffer() -> bool {
        true
    }

    open spec fn wf(&self) -> bool {
        true
    }

    open spec fn wire(&self) -> Seq<u8> {
        seq![*self]
    }

    fn serialize_at(&self, buffer: &mut [u8], pos: usize) -> (r: Result<usize, SerializeError>) {
        if write_byte(buffer, pos, *self) {
            assert(buffer@.subrange(pos as int, pos + 1) =~= self.wire());
            assert(buffer@.subrange(0, pos as int) =~= old(buffer)@.subrange(0, pos as int));
            assert(buffer@.skip(pos + 1) =~= old(buffer)@.skip(pos + 1));
            Ok(1)
        } else {
            Err(SerializeError::BufferOverflow)
        }
    }
}

/// Two's-complement byte image of a signed 8-bit value.
pub open spec fn to_unsigned8(x: i8) -> u8 {
    if x >= 0 {
        x as u8
    } else {
        (x + 256) as u8
    }
}

/// Signed reading of a byte, inverse of [`to_unsigned8`].
pub open spec fn to_signed8(b: u8) -> i8 {
    if b < 128 {
        b as i8
    } else {
        (b - 256) as i8
    }
}

/// Two's-complement image of a signed 16-bit value.
pub open spec fn to_unsigned16(x: i16) -> u16 {
    if x >= 0 {
        x as u16
    } else {
        (x + 0x10000) as u16
    }
}

/// Signed reading of a 16-bit value, inverse of [`to_unsigned16`].
pub open spec fn to_signed16(b: u16) -> i16 {
    if b < 0x8000 {
        b as i16
    } else {
        (b - 0x10000) as i16
    }
}

/// Two's-complement image of a signed 32-bit value.
pub open spec fn to_unsigned32(x: i32) -> u32 {
    if x >= 0 {
        x as u32
    } else {
        (x + 0x1_0000_0000) as u32
    }
}

/// Signed reading of a 32-bit value, inverse of [`to_unsigned32`].
pub open spec fn to_signed32(b: u32) -> i32 {
    if b < 0x8000_0000 {
        b as i32
    } else {
        (b - 0x1_0000_0000) as i32
    }
}

impl Serialize for i8 {
    open spec fn overflow_leaves_buffer() -> bool {
        true
    }

    open spec fn wf(&self) -> bool {
        true
    }

    open spec fn wire(&self) -> Seq<u8> {
        seq![to_unsigned8(*self)]
    }

    fn serialize_at(&self, buffer: &mut [u8], pos: usize) -> (r: Result<usize, SerializeError>) {
        let b: u8 = if *self >= 0 {
            *self as u8
        } else {
            ((*self as i16) + 256) as u8
        };
        if write_byte(buffer, pos, b) {
            assert(buffer@.subrange(pos as int, pos + 1) =~= self.wire());
            assert(buffer@.subrange(0, pos as int) =~= old(buffer)@.subrange(0, pos as int));
            assert(buffer@.skip(pos + 1) =~= old(buffer)@.skip(pos + 1));
            Ok(1)
        } else {
            Err(SerializeError::BufferOverflow)
        }
    }
}

impl Deserialize for i8 {
    open spec fn parse(buf: Seq<u8>) -> Option<(Self, int)> {
        if buf.len() >= 1 {
            Some((to_signed8(buf[0]), 1))
        } else {
            None
        }
    }

    fn deserialize(buf: &[u8]) -> (r: Result<(Self, usize), DeserializeError>) {
        if buf.len() < 1 {
            return Err(DeserializeError::Invalid);
        }
        let b = buf[0];
        let x: i8 = if b < 128 {
            b as i8
        } else {
            ((b as i16) - 256) as i8
        };
        Ok((x, 1))
    }

    proof fn lemma_parse_wire(v: Self, rest: Seq<u8>) {
        assert((v.wire() + rest)[0] == to_unsigned8(v));
    }

    proof fn lemma_parse_prefix(buf: Seq<u8>, ext: Seq<u8>) {
        if buf.len() >= 1 {
            assert((buf + ext)[0] == buf[0]);
        }
    }
}

impl Serialize for i16 {
    open spec fn overflow_leaves_buffer() -> bool {
        true
    }

    open spec fn wf(&self) -> bool {
        true
    }

    open spec fn wire(&self) -> Seq<u8> {
        seq![(to_unsigned16(*self) / 256) as u8, (to_unsigned16(*self) % 256) as u8]
    }

    fn serialize_at(&self, buffer: &mut [u8], pos: usize) -> (r: Result<usize, SerializeError>) {
        if pos >= buffer.len() || buffer.len() - pos < 2 {
            return Err(SerializeError::BufferOverflow);
        }
        let u: u16 = if *self >= 0 {
            *self as u16
        } else {
            ((*self as i32) + 0x10000) as u16
        };
        buffer[pos] = (u / 256) as u8;
        buffer[pos + 1] = (u % 256) as u8;
        assert(buffer@.subrange(pos as int, pos + 2) =~= self.wire());
        assert(buffer@.subrange(0, pos as int) =~= old(buffer)@.subrange(0, pos as int));
        assert(buffer@.skip(pos + 2) =~= old(buffer)@.skip(pos + 2));
        Ok(2)
    }
}

impl Deserialize for i16 {
    open spec fn parse(buf: Seq<u8>) -> Option<(Self, int)> {
        if buf.len() >= 2 {
            Some((to_signed16(((buf[0] as int) * 256 + (buf[1] as int)) as u16), 2))
        } else {
            None
        }
    }

    fn deserialize(buf: &[u8]) -> (r: Result<(Self, usize), DeserializeError>) {
        if buf.len() < 2 {
            return Err(DeserializeError::Invalid);
        }
        let u: u16 = (buf[0] as u16) * 256 + (buf[1] as u16);
        let x: i16 = if u < 0x8000 {
            u as i16
        } else {
            ((u as i32) - 0x10000) as i16
        };
        Ok((x, 2))
    }

    proof fn lemma_parse_wire(v: Self, rest: Seq<u8>) {
        let b = v.wire() + rest;
        let u = to_unsigned16(v);
        assert(b[0] == (u / 256) as u8 && b[1] == (u % 256) as u8);
    }

    proof fn lemma_parse_prefix(buf: Seq<u8>, ext: Seq<u8>) {
        if buf.len() >= 2 {
            assert((buf + ext)[0] == buf[0] && (buf + ext)[1] == buf[1]);
        }
    }
}

/// The four big-endian bytes of a 32-bit value.
pub open spec fn u32_bytes(u: u32) -> Seq<u8> {
    seq![
        (u / 0x100_0000) as u8,
        ((u / 0x1_0000) % 256) as u8,
        ((u / 0x100) % 256) as u8,
        (u % 256) as u8,
    ]
}

/// The 32-bit value read back from four big-endian bytes.
pub open spec fn u32_from_bytes(b0: u8, b1: u8, b2: u8, b3: u8) -> u32 {
    ((b0 as int) * 0x100_0000 + (b1 as int) * 0x1_0000 + (b2 as int) * 0x100 + (b3 as int)) as u32
}

proof fn lemma_u32_bytes_round_trip(u: u32)
    ensures
        u32_from_bytes(u32_bytes(u)[0], u32_bytes(u)[1], u32_bytes(u)[2], u32_bytes(u)[3]) == u,
{
    assert(u == (u / 0x100_0000) * 0x100_0000 + ((u / 0x1_0000) % 256) * 0x1_0000 + ((u / 0x100)
        % 256) * 0x100 + u % 256) by {
        assert(u / 0x1_0000 == (u / 0x100_0000) * 0x100 + (u / 0x1_0000) % 256) by (nonlinear_arith);
        assert(u / 0x100 == (u / 0x1_0000) * 0x100 + (u / 0x100) % 256) by (nonlinear_arith);
        assert(u as int == (u / 0x100) * 0x100 + u % 256) by (nonlinear_arith);
    }
}

/// Write the four big-endian bytes of `u` at `pos`.
fn write_u32_bytes(buffer: &mut [u8], pos: usize, u: u32) -> (r: Result<usize, SerializeError>)
    requires
        pos <= old(buffer)@.len(),
    ensures
        final(buffer)@.len() == old(buffer)@.len(),
        final(buffer)@.subrange(0, pos as int) == old(buffer)@.subrange(0, pos as int),
        match r {
            Ok(n) => {
                &&& n == 4
                &&& pos + 4 <= final(buffer)@.len()
                &&& final(buffer)@.subrange(pos as int, pos + 4) == u32_bytes(u)
                &&& final(buffer)@.skip(pos + 4) == old(buffer)@.skip(pos + 4)
            },
            Err(e) => {
                &&& e == SerializeError::BufferOverflow
                &&& pos + 4 > old(buffer)@.len()
                &&& final(buffer)@ == old(buffer)@
            },
        },
{
    if pos >= buffer.len() || buffer.len() - pos < 4 {
        return Err(SerializeError::BufferOverflow);
    }
    buffer[pos] = (u / 0x100_0000) as u8;
    buffer[pos + 1] = ((u / 0x1_0000) % 256) as u8;
    buffer[pos + 2] = ((u / 0x100) % 256) as u8;
    buffer[pos + 3] = (u % 256) as u8;
    assert(buffer@.subrange(pos as int, pos + 4) =~= u32_bytes(u));
    assert(buffer@.subrange(0, pos as int) =~= old(buffer)@.subrange(0, pos as int));
    assert(buffer@.skip(pos + 4) =~= old(buffer)@.skip(pos + 4));
    Ok(4)
}

/// Read a 32-bit value from four bytes at the front of `buf`.
fn read_u32_bytes(buf: &[u8]) -> (r: Result<(u32, usize), DeserializeError>)
    ensures
        match r {
            Ok((u, n)) => {
                &&& buf@.len() >= 4
                &&& n == 4
                &&& u == u32_from_bytes(buf@[0], buf@[1], buf@[2], buf@[3])
            },
            Err(e) => e == DeserializeError::Invalid && buf@.len() < 4,
        },
{
    if buf.len() < 4 {
        return Err(DeserializeError::Invalid);
    }
    let u: u32 = (buf[0] as u32) * 0x100_0000 + (buf[1] as u32) * 0x1_0000 + (buf[2] as u32) * 0x100
        + (buf[3] as u32);
    Ok((u, 4))
}

impl Serialize for u32 {
    open spec fn overflow_leaves_buffer() -> bool {
        true
    }

    open spec fn wf(&self) -> bool {
        true
    }

    open spec fn wire(&self) -> Seq<u8> {
        u32_bytes(*self)
    }

    fn serialize_at(&self, buffer: &mut [u8], pos: usize) -> (r: Result<usize, SerializeError>) {
        write_u32_bytes(buffer, pos, *self)
    }
}

impl Deserialize for u32 {
    open spec fn parse(buf: Seq<u8>) -> Option<(Self, int)> {
        if buf.len() >= 4 {
            Some((u32_from_bytes(buf[0], buf[1], buf[2], buf[3]), 4))
        } else {
            None
        }
    }

    fn deserialize(buf: &[u8]) -> (r: Result<(Self, usize), DeserializeError>) {
        read_u32_bytes(buf)
    }

    proof fn lemma_parse_wire(v: Self, rest: Seq<u8>) {
        let b = v.wire() + rest;
        assert(b[0] == v.wire()[0] && b[1] == v.wire()[1] && b[2] == v.wire()[2] && b[3]
            == v.wire()[3]);
        lemma_u32_bytes_round_trip(v);
    }

    proof fn lemma_parse_prefix(buf: Seq<u8>, ext: Seq<u8>) {
        if buf.len() >= 4 {
            let b = buf + ext;
            assert(b[0] == buf[0] && b[1] == buf[1] && b[2] == buf[2] && b[3] == buf[3]);
        }
    }
}

impl Serialize for i32 {
    open spec fn overflow_leaves_buffer() -> bool {
        true
    }

    open spec fn wf(&self) -> bool {
        true
    }

    open spec fn wire(&self) -> Seq<u8> {
        u32_bytes(to_unsigned32(*self))
    }

    fn serialize_at(&self, buffer: &mut [u8], pos: usize) -> (r: Result<usize, SerializeError>) {
        let u: u32 = if *self >= 0 {
            *self as u32
        } else {
            ((*self as i64) + 0x1_0000_0000) as u32
        };
        write_u32_bytes(buffer, pos, u)
    }
}

impl Deserialize for i32 {
    open spec fn parse(buf: Seq<u8>) -> Option<(Self, int)> {
        if buf.len() >= 4 {
            Some((to_signed32(u32_from_bytes(buf[0], buf[1], buf[2], buf[3])), 4))
        } else {
            None
        }
    }

    fn deserialize(buf: &[u8]) -> (r: Result<(Self, usize), DeserializeError>) {
        let (u, n) = read_u32_bytes(buf)?;
        let x: i32 = if u < 0x8000_0000 {
            u as i32
        } else {
            ((u as i64) - 0x1_0000_0000) as i32
        };
        Ok((x, n))
    }

    proof fn lemma_parse_wire(v: Self, rest: Seq<u8>) {
        let b = v.wire() + rest;
        assert(b[0] == v.wire()[0] && b[1] == v.wire()[1] && b[2] == v.wire()[2] && b[3]
            == v.wire()[3]);
        lemma_u32_bytes_round_trip(to_unsigned32(v));
    }

    proof fn lemma_parse_prefix(buf: Seq<u8>, ext: Seq<u8>) {
        if buf.len() >= 4 {
            let b = buf + ext;
            assert(b[0] == buf[0] && b[1] == buf[1] && b[2] == buf[2] && b[3] == buf[3]);
        }
    }
}

impl Serialize for u16 {
    open spec fn overflow_leaves_buffer() -> bool {
        true
    }

    open spec fn wf(&self) -> bool {
        true
    }

    open spec fn wire(&self) -> Seq<u8> {
        seq![(*self / 256) as u8, (*self % 256) as u8]
    }

    fn serialize_at(&self, buffer: &mut [u8], pos: usize) -> (r: Result<usize, SerializeError>) {
        if pos >= buffer.len() || buffer.len() - pos < 2 {
            return Err(SerializeError::BufferOverflow);
        }
        buffer[pos] = (*self / 256) as u8;
        buffer[pos + 1] = (*self % 256) as u8;
        assert(buffer@.subrange(pos as int, pos + 2) =~= self.wire());
        assert(buffer@.subrange(0, pos as int) =~= old(buffer)@.subrange(0, pos as int));
        assert(buffer@.skip(pos + 2) =~= old(buffer)@.skip(pos + 2));
        Ok(2)
    }
}

impl Deserialize for u16 {
    open spec fn parse(buf: Seq<u8>) -> Option<(Self, int)> {
        if buf.len() >= 2 {
            Some((((buf[0] as int) * 256 + (buf[1] as int)) as u16, 2))
        } else {
            None
        }
    }

    fn deserialize(buf: &[u8]) -> (r: Result<(Self, usize), DeserializeError>) {
        if buf.len() < 2 {
            return Err(DeserializeError::Invalid);
        }
        let x: u16 = (buf[0] as u16) * 256 + (buf[1] as u16);
        Ok((x, 2))
    }

    proof fn lemma_parse_wire(v: Self, rest: Seq<u8>) {
        let b = v.wire() + rest;
        assert(b[0] == (v / 256) as u8 && b[1] == (v % 256) as u8);
    }

    proof fn lemma_parse_prefix(buf: Seq<u8>, ext: Seq<u8>) {
        if buf.len() >= 2 {
            assert((buf + ext)[0] == buf[0] && (buf + ext)[1] == buf[1]);
        }
    }
}

impl Deserialize for u8 {
    open spec fn parse(buf: Seq<u8>) -> Option<(Self, int)> {
        if buf.len() >= 1 {
            Some((buf[0], 1))
        } else {
            None
        }
    }

    fn deserialize(buf: &[u8]) -> (r: Result<(Self, usize), DeserializeError>) {
        if buf.len() < 1 {
            return Err(DeserializeError::Invalid);
        }
        Ok((buf[0], 1))
    }

    proof fn lemma_parse_wire(v: Self, rest: Seq<u8>) {
        assert((v.wire() + rest)[0] == v);
    }

    proof fn lemma_parse_prefix(buf: Seq<u8>, ext: Seq<u8>) {
        if buf.len() >= 1 {
            assert((buf + ext)[0] == buf[0]);
        }
    }
}

/// One step of writing a value field by field: what the three buffer
/// regions look like after one more piece lands at `off`.
pub(crate) proof fn lemma_write_step(
    pre: Seq<u8>,
    cur: Seq<u8>,
    orig: Seq<u8>,
    pos: int,
    off: int,
    n: int,
    acc: Seq<u8>,
    piece: Seq<u8>,
)
    requires
        pre.len() == cur.len(),
        cur.len() == orig.len(),
        0 <= pos <= off,
        0 <= n,
        off + n <= cur.len(),
        pre.subrange(0, pos) == orig.subrange(0, pos),
        pre.subrange(pos, off) == acc,
        pre.skip(off) == orig.skip(off),
        cur.subrange(0, off) == pre.subrange(0, off),
        cur.subrange(off, off + n) == piece,
        cur.skip(off + n) == pre.skip(off + n),
    ensures
        cur.subrange(0, pos) == orig.subrange(0, pos),
        cur.subrange(pos, off + n) == acc + piece,
        cur.skip(off + n) == orig.skip(off + n),
{
    lemma_subrange_of_prefix(cur, pre, off, 0, pos);
    lemma_subrange_of_prefix(cur, pre, off, pos, off);
    lemma_subrange_concat(cur, pos, off, off + n);
    lemma_skip_of_suffix(pre, orig, off, off + n);
}

/// Write a one-byte variant tag followed by the payload's encoding.
pub(crate) fn write_tagged<T: Serialize>(
    tag: u8,
    payload: &T,
    buffer: &mut [u8],
    pos: usize,
) -> (r: Result<usize, SerializeError>)
    requires
        payload.wf(),
        pos <= old(buffer)@.len(),
    ensures
        final(buffer)@.len() == old(buffer)@.len(),
        final(buffer)@.subrange(0, pos as int) == old(buffer)@.subrange(0, pos as int),
        match r {
            Ok(n) => {
                &&& n == 1 + payload.wire().len()
                &&& pos + n <= final(buffer)@.len()
                &&& final(buffer)@.subrange(pos as int, pos + n) == seq![tag] + payload.wire()
                &&& final(buffer)@.skip(pos + n) == old(buffer)@.skip(pos + n)
            },
            Err(e) => {
                &&& e == SerializeError::BufferOverflow
                &&& pos + 1 + payload.wire().len() > old(buffer)@.len()
            },
        },
{
    if !write_byte(buffer, pos, tag) {
        return Err(SerializeError::BufferOverflow);
    }
    let ghost tagged = buffer@;
    match payload.serialize_at(buffer, pos + 1) {
        Ok(n) => {
            proof {
                lemma_subrange_of_prefix(buffer@, tagged, pos + 1, 0, pos as int);
                assert(tagged.subrange(0, pos as int) =~= old(buffer)@.subrange(0, pos as int));
                lemma_subrange_of_prefix(buffer@, tagged, pos + 1, pos as int, pos + 1);
                assert(tagged.subrange(pos as int, pos + 1) =~= seq![tag]);
                lemma_subrange_concat(buffer@, pos as int, pos + 1, pos + 1 + n);
                assert(buffer@.subrange(pos as int, pos + 1 + n) =~= seq![tag] + payload.wire());
                assert(tagged.skip(pos + 1 + n) =~= old(buffer)@.skip(pos + 1 + n));
            }
            Ok(n + 1)
        },
        Err(e) => {
            proof {
                lemma_subrange_of_prefix(buffer@, tagged, pos + 1, 0, pos as int);
                assert(tagged.subrange(0, pos as int) =~= old(buffer)@.subrange(0, pos as int));
            }
            Err(e)
        },
    }
}

impl<A: Serialize, B: Serialize> Serialize for (A, B) {
    open spec fn overflow_leaves_buffer() -> bool {
        false
    }

    open spec fn wf(&self) -> bool {
        self.0.wf() && self.1.wf()
    }

    open spec fn wire(&self) -> Seq<u8> {
        self.0.wire() + self.1.wire()
    }

    fn serialize_at(&self, buffer: &mut [u8], pos: usize) -> (r: Result<usize, SerializeError>) {
        let cap = buffer.len();
        let n0 = self.0.serialize_at(buffer, pos)?;
        let ghost pre = buffer@;
        match self.1.serialize_at(buffer, pos + n0) {
            Ok(n1) => {
                proof {
                    lemma_write_step(
                        pre,
                        buffer@,
                        old(buffer)@,
                        pos as int,
                        pos + n0,
                        n1 as int,
                        self.0.wire(),
                        self.1.wire(),
                    );
                }
                Ok(n0 + n1)
            },
            Err(e) => {
                proof {
                    lemma_subrange_of_prefix(buffer@, pre, pos + n0, 0, pos as int);
                }
                Err(e)
            },
        }
    }
}

impl<A: Deserialize, B: Deserialize> Deserialize for (A, B) {
    open spec fn parse(buf: Seq<u8>) -> Option<
        ((<A as DeepView>::V, <B as DeepView>::V), int),
    > {
        match A::parse(buf) {
            Some((a, n0)) => match B::parse(buf.skip(n0)) {
                Some((b, n1)) => Some(((a, b), n0 + n1)),
                None => None,
            },
            None => None,
        }
    }

    fn deserialize(buf: &[u8]) -> (r: Result<(Self, usize), DeserializeError>) {
        let (a, n0) = A::deserialize(buf)?;
        let tail = vstd::slice::slice_subrange(buf, n0, buf.len());
        proof {
            assert(tail@ =~= buf@.skip(n0 as int));
        }
        match B::deserialize(tail) {
            Ok((b, n1)) => Ok(((a, b), n0 + n1)),
            Err(e) => Err(e),
        }
    }

    proof fn lemma_parse_wire(v: Self, rest: Seq<u8>) {
        let b = v.wire() + rest;
        assert(b =~= v.0.wire() + (v.1.wire() + rest));
        A::lemma_parse_wire(v.0, v.1.wire() + rest);
        let n0 = v.0.wire().len() as int;
        assert(b.skip(n0) =~= v.1.wire() + rest);
        B::lemma_parse_wire(v.1, rest);
    }

    proof fn lemma_parse_prefix(buf: Seq<u8>, ext: Seq<u8>) {
        A::lemma_parse_prefix(buf, ext);
        match A::parse(buf) {
            Some((a, n0)) => {
                B::lemma_parse_prefix(buf.skip(n0), ext);
                assert((buf + ext).skip(n0) =~= buf.skip(n0) + ext);
            },
            None => {},
        }
    }
}

impl<T: Serialize> Serialize for Option<T> {
    open spec fn overflow_leaves_buffer() -> bool {
        false
    }

    open spec fn wf(&self) -> bool {
        match self {
            Some(x) => x.wf(),
            None => true,
        }
    }

    open spec fn wire(&self) -> Seq<u8> {
        match self {
            Some(x) => seq![1u8] + x.wire(),
            None => seq![0u8],
        }
    }

    fn serialize_at(&self, buffer: &mut [u8], pos: usize) -> (r: Result<usize, SerializeError>) {
        match self {
            None => {
                if write_byte(buffer, pos, 0) {
                    assert(buffer@.subrange(pos as int, pos + 1) =~= self.wire());
                    assert(buffer@.subrange(0, pos as int) =~= old(buffer)@.subrange(0, pos as int));
                    assert(buffer@.skip(pos + 1) =~= old(buffer)@.skip(pos + 1));
                    Ok(1)
                } else {
                    Err(SerializeError::BufferOverflow)
                }
            },
            Some(x) => {
                if !write_byte(buffer, pos, 1) {
                    return Err(SerializeError::BufferOverflow);
                }
                let ghost tagged = buffer@;
                match x.serialize_at(buffer, pos + 1) {
                    Ok(n) => {
                        proof {
                            lemma_subrange_of_prefix(buffer@, tagged, pos + 1, 0, pos as int);
                            assert(tagged.subrange(0, pos as int) =~= old(buffer)@.subrange(
                                0,
                                pos as int,
                            ));
                            lemma_subrange_of_prefix(buffer@, tagged, pos + 1, pos as int, pos + 1);
                            assert(tagged.subrange(pos as int, pos + 1) =~= seq![1u8]);
                            lemma_subrange_concat(buffer@, pos as int, pos + 1, pos + 1 + n);
                            assert(buffer@.subrange(pos as int, pos + 1 + n) =~= self.wire());
                            assert(tagged.skip(pos + 1 + n) =~= old(buffer)@.skip(pos + 1 + n));
                        }
                        Ok(n + 1)
                    },
                    Err(e) => {
                        proof {
                            lemma_subrange_of_prefix(buffer@, tagged, pos + 1, 0, pos as int);
                            assert(tagged.subrange(0, pos as int) =~= old(buffer)@.subrange(
                                0,
                                pos as int,
                            ));
                        }
                        Err(e)
                    },
                }
            },
        }
    }
}

impl<T: Deserialize> Deserialize for Option<T> {
    open spec fn parse(buf: Seq<u8>) -> Option<(Option<<T as DeepView>::V>, int)> {
        if buf.len() < 1 {
            None
        } else if buf[0] == 0 {
            Some((None, 1))
        } else if buf[0] == 1 {
            match T::parse(buf.skip(1)) {
                Some((v, n)) => Some((Some(v), n + 1)),
                None => None,
            }
        } else {
            None
        }
    }

    fn deserialize(buf: &[u8]) -> (r: Result<(Self, usize), DeserializeError>) {
        if buf.len() < 1 {
            return Err(DeserializeError::Invalid);
        }
        match buf[0] {
            0 => Ok((None, 1)),
            1 => {
                let tail = vstd::slice::slice_subrange(buf, 1, buf.len());
                match T::deserialize(tail) {
                    Ok((v, n)) => Ok((Some(v), n + 1)),
                    Err(e) => Err(e),
                }
            },
            _ => Err(DeserializeError::Invalid),
        }
    }

    proof fn lemma_parse_wire(v: Self, rest: Seq<u8>) {
        let b = v.wire() + rest;
        match v {
            None => {
                assert(b[0] == 0);
            },
            Some(x) => {
                assert(b[0] == 1);
                assert(b.skip(1) =~= x.wire() + rest);
                T::lemma_parse_wire(x, rest);
            },
        }
    }

    proof fn lemma_parse_prefix(buf: Seq<u8>, ext: Seq<u8>) {
        if buf.len() >= 1 {
            assert((buf + ext)[0] == buf[0]);
            if buf[0] == 1 {
                T::lemma_parse_prefix(buf.skip(1), ext);
                assert((buf + ext).skip(1) =~= buf.skip(1) + ext);
            }
        }
    }
}

/// The concatenated encodings of a sequence of values (the bytes after the
/// length prefix of an encoded sequence).
pub open spec fn wire_items<T: Serialize>(s: Seq<T>) -> Seq<u8>
    decreases s.len(),
{
    if s.len() == 0 {
        Seq::empty()
    } else {
        s[0].wire() + wire_items(s.skip(1))
    }
}

/// The deep views of a sequence of values, element by element.
pub open spec fn items_view<T: DeepView>(s: Seq<T>) -> Seq<<T as DeepView>::V> {
    Seq::new(s.len(), |i: int| s[i].deep_view())
}

/// The outcome of decoding exactly `count` consecutive values.
pub open spec fn parse_items<T: Deserialize>(buf: Seq<u8>, count: nat) -> Option<
    (Seq<<T as DeepView>::V>, int),
>
    decreases count,
{
    if count == 0 {
        Some((Seq::empty(), 0))
    } else {
        match T::parse(buf) {
            Some((v, n)) => match parse_items::<T>(buf.skip(n), (count - 1) as nat) {
                Some((s, m)) => Some((seq![v] + s, n + m)),
                None => None,
            },
            None => None,
        }
    }
}

/// Splitting a sequence splits its encoding.
pub proof fn lemma_wire_items_split<T: Serialize>(s: Seq<T>, i: int)
    requires
        0 <= i <= s.len(),
    ensures
        wire_items(s) == wire_items(s.take(i)) + wire_items(s.skip(i)),
    decreases i,
{
    if i == 0 {
        assert(s.take(0) =~= Seq::empty());
        assert(s.skip(0) =~= s);
        assert(wire_items(s) =~= wire_items(s.take(0)) + wire_items(s));
    } else {
        lemma_wire_items_split(s.skip(1), i - 1);
        assert(s.skip(1).take(i - 1) =~= s.take(i).skip(1));
        assert(s.skip(1).skip(i - 1) =~= s.skip(i));
        assert(s.take(i)[0] == s[0]);
        assert(wire_items(s.take(i)) == s[0].wire() + wire_items(s.take(i).skip(1)));
        assert(wire_items(s) =~= wire_items(s.take(i)) + wire_items(s.skip(i)));
    }
}

/// Appending one value appends its encoding.
pub proof fn lemma_wire_items_snoc<T: Serialize>(s: Seq<T>, x: T)
    ensures
        wire_items(s.push(x)) == wire_items(s) + x.wire(),
    decreases s.len(),
{
    if s.len() == 0 {
        assert(s.push(x)[0] == x);
        assert(s.push(x).skip(1) =~= Seq::<T>::empty());
        assert(wire_items(Seq::<T>::empty()) == Seq::<u8>::empty());
        assert(wire_items(s.push(x)) =~= wire_items(s) + x.wire());
    } else {
        assert(s.push(x)[0] == s[0]);
        assert(s.push(x).skip(1) =~= s.skip(1).push(x));
        lemma_wire_items_snoc(s.skip(1), x);
        assert(wire_items(s.push(x)) =~= wire_items(s) + x.wire());
    }
}

/// Decoding the concatenated encodings of `s` yields `s` back.
pub proof fn lemma_parse_items_wire<T: Deserialize>(s: Seq<T>, rest: Seq<u8>)
    requires
        forall|i: int| 0 <= i < s.len() ==> #[trigger] s[i].wf(),
    ensures
        parse_items::<T>(wire_items(s) + rest, s.len() as nat) == Some(
            (items_view(s), wire_items(s).len() as int),
        ),
    decreases s.len(),
{
    if s.len() == 0 {
        assert(items_view(s) =~= Seq::<<T as DeepView>::V>::empty());
    } else {
        let b = wire_items(s) + rest;
        assert(b =~= s[0].wire() + (wire_items(s.skip(1)) + rest));
        T::lemma_parse_wire(s[0], wire_items(s.skip(1)) + rest);
        let n0 = s[0].wire().len() as int;
        assert(b.skip(n0) =~= wire_items(s.skip(1)) + rest);
        lemma_parse_items_wire::<T>(s.skip(1), rest);
        assert(seq![s[0].deep_view()] + items_view(s.skip(1)) =~= items_view(s));
    }
}

/// Decoding a fixed count of values consumes a prefix and ignores what
/// follows it.
pub proof fn lemma_parse_items_prefix<T: Deserialize>(buf: Seq<u8>, ext: Seq<u8>, count: nat)
    ensures
        parse_items::<T>(buf, count) matches Some((s, m)) ==> {
            &&& 0 <= m <= buf.len()
            &&& parse_items::<T>(buf + ext, count) == Some((s, m))
        },
    decreases count,
{
    if count > 0 {
        T::lemma_parse_prefix(buf, ext);
        match T::parse(buf) {
            Some((v, n)) => {
                lemma_parse_items_prefix::<T>(buf.skip(n), ext, (count - 1) as nat);
                assert((buf + ext).skip(n) =~= buf.skip(n) + ext);
            },
            None => {},
        }
    }
}

impl<T: Serialize> Serialize for Vec<T> {
    open spec fn overflow_leaves_buffer() -> bool {
        false
    }

    open spec fn wf(&self) -> bool {
        &&& self@.len() <= 255
        &&& forall|i: int| 0 <= i < self@.len() ==> #[trigger] self@[i].wf()
    }

    open spec fn wire(&self) -> Seq<u8> {
        seq![self@.len() as u8] + wire_items(self@)
    }

    fn serialize_at(&self, buffer: &mut [u8], pos: usize) -> (r: Result<usize, SerializeError>) {
        let count: u8 = self.len() as u8;
        if !write_byte(buffer, pos, count) {
            return Err(SerializeError::BufferOverflow);
        }
        let mut offset: usize = pos + 1;
        let mut i: usize = 0;
        proof {
            assert(wire_items(self@.take(0)) == Seq::<u8>::empty());
            assert(buffer@.subrange(pos as int, offset as int) =~= seq![count] + wire_items(
                self@.take(0),
            ));
            assert(buffer@.subrange(0, pos as int) =~= old(buffer)@.subrange(0, pos as int));
            assert(buffer@.skip(offset as int) =~= old(buffer)@.skip(offset as int));
        }
        while i < self.len()
            invariant
                self.wf(),
                i <= self@.len(),
                pos + 1 <= offset <= buffer@.len() == old(buffer)@.len() <= usize::MAX,
                offset == pos + 1 + wire_items(self@.take(i as int)).len(),
                buffer@.subrange(0, pos as int) == old(buffer)@.subrange(0, pos as int),
                buffer@.subrange(pos as int, offset as int) == seq![self@.len() as u8]
                    + wire_items(self@.take(i as int)),
                buffer@.skip(offset as int) == old(buffer)@.skip(offset as int),
            decreases self@.len() - i,
        {
            let ghost pre = buffer@;
            let ghost prev_off = offset as int;
            match self[i].serialize_at(buffer, offset) {
                Ok(n) => {
                    proof {
                        lemma_wire_items_snoc(self@.take(i as int), self@[i as int]);
                        assert(self@.take(i + 1) =~= self@.take(i as int).push(self@[i as int]));
                        lemma_subrange_of_prefix(buffer@, pre, prev_off, 0, pos as int);
                        lemma_subrange_of_prefix(buffer@, pre, prev_off, pos as int, prev_off);
                        lemma_subrange_concat(buffer@, pos as int, prev_off, prev_off + n);
                        assert(buffer@.subrange(pos as int, prev_off + n) =~= seq![
                            self@.len() as u8,
                        ] + wire_items(self@.take(i + 1)));
                        lemma_skip_of_suffix(pre, old(buffer)@, prev_off, prev_off + n);
                    }
                    offset = offset + n;
                    i = i + 1;
                },
                Err(e) => {
                    proof {
                        lemma_wire_items_split(self@, i as int);
                        assert(wire_items(self@.skip(i as int)) == self@[i as int].wire()
                            + wire_items(self@.skip(i as int).skip(1))) by {
                            assert(self@.skip(i as int)[0] == self@[i as int]);
                        }
                        lemma_subrange_of_prefix(buffer@, pre, prev_off, 0, pos as int);
                    }
                    return Err(e);
                },
            }
        }
        proof {
            assert(self@.take(self@.len() as int) =~= self@);
            assert(buffer@.subrange(pos as int, offset as int) =~= self.wire());
        }
        Ok(offset - pos)
    }
}

impl<T: Deserialize> Deserialize for Vec<T> {
    open spec fn parse(buf: Seq<u8>) -> Option<(Seq<<T as DeepView>::V>, int)> {
        if buf.len() < 1 {
            None
        } else {
            match parse_items::<T>(buf.skip(1), buf[0] as nat) {
                Some((s, m)) => Some((s, 1 + m)),
                None => None,
            }
        }
    }

    fn deserialize(buf: &[u8]) -> (r: Result<(Self, usize), DeserializeError>) {
        if buf.len() < 1 {
            return Err(DeserializeError::Invalid);
        }
        let count = buf[0] as usize;
        let mut v: Vec<T> = Vec::new();
        let mut offset: usize = 1;
        let mut i: usize = 0;
        proof {
            assert(v.deep_view() =~= Seq::<<T as DeepView>::V>::empty());
            assert(buf@.skip(1) =~= buf@.skip(offset as int));
        }
        while i < count
            invariant
                i <= count,
                count <= 255,
                count == buf@[0],
                1 <= offset <= buf@.len(),
                v@.len() == i,
                forall|j: int| 0 <= j < v@.len() ==> #[trigger] v@[j].wf(),
                parse_items::<T>(buf@.skip(1), count as nat) == (match parse_items::<T>(
                    buf@.skip(offset as int),
                    (count - i) as nat,
                ) {
                    Some((s, m)) => Some((v.deep_view() + s, (offset - 1) + m)),
                    None => None::<(Seq<<T as DeepView>::V>, int)>,
                }),
            decreases count - i,
        {
            let tail = vstd::slice::slice_subrange(buf, offset, buf.len());
            match T::deserialize(tail) {
                Ok((x, n)) => {
                    proof {
                        assert(buf@.skip(offset as int).skip(n as int) =~= buf@.skip(
                            offset + n as int,
                        ));
                    }
                    let ghost old_v = v;
                    v.push(x);
                    offset = offset + n;
                    i = i + 1;
                    proof {
                        assert(v.deep_view() =~= old_v.deep_view() + seq![x.deep_view()]);
                        match parse_items::<T>(buf@.skip(offset as int), (count - i) as nat) {
                            Some((s, m)) => {
                                assert(old_v.deep_view() + (seq![x.deep_view()] + s)
                                    =~= v.deep_view() + s);
                            },
                            None => {},
                        }
                    }
                },
                Err(_) => {
                    return Err(DeserializeError::Invalid);
                },
            }
        }
        proof {
            assert(parse_items::<T>(buf@.skip(offset as int), 0) == Some(
                (Seq::<<T as DeepView>::V>::empty(), 0int),
            ));
            assert(v.deep_view() + Seq::<<T as DeepView>::V>::empty() =~= v.deep_view());
        }
        Ok((v, offset))
    }

    proof fn lemma_parse_wire(v: Self, rest: Seq<u8>) {
        let b = v.wire() + rest;
        assert(b[0] == v@.len() as u8);
        assert(b.skip(1) =~= wire_items(v@) + rest);
        lemma_parse_items_wire::<T>(v@, rest);
        assert(items_view(v@) =~= v.deep_view());
    }

    proof fn lemma_parse_prefix(buf: Seq<u8>, ext: Seq<u8>) {
        if buf.len() >= 1 {
            assert((buf + ext)[0] == buf[0]);
            lemma_parse_items_prefix::<T>(buf.skip(1), ext, buf[0] as nat);
            assert((buf + ext).skip(1) =~= buf.skip(1) + ext);
        }
    }
}

} // verus!
