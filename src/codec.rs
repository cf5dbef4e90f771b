use vstd::prelude::*;

verus! {

/// Errors of the store and of the codecs built on it.
#[derive(Debug, PartialEq, Eq, Structural, Clone, Copy)]
pub enum StoreError {
    CorruptKey,
    CorruptValue,
    StoreUnavailable,
    UnexpectedError,
    TooLarge,
}

/// Big-endian bytes of a 16-bit value.
pub open spec fn be16(x: u16) -> Seq<u8> {
    seq![(x >> 8u16) as u8, x as u8]
}

/// Big-endian bytes of a 32-bit value.
pub open spec fn be32(x: u32) -> Seq<u8> {
    seq![(x >> 24u32) as u8, (x >> 16u32) as u8, (x >> 8u32) as u8, x as u8]
}

/// Big-endian bytes of a 64-bit value.
pub open spec fn be64(x: u64) -> Seq<u8> {
    seq![
        (x >> 56u64) as u8, (x >> 48u64) as u8, (x >> 40u64) as u8, (x >> 32u64) as u8,
        (x >> 24u64) as u8, (x >> 16u64) as u8, (x >> 8u64) as u8, x as u8,
    ]
}

/// The 16-bit value read big-endian from the first two bytes of `b`.
pub open spec fn be16_value(b: Seq<u8>) -> u16
    recommends
        b.len() >= 2,
{
    ((b[0] as u16) << 8u16) | (b[1] as u16)
}

/// The 32-bit value read big-endian from the first four bytes of `b`.
pub open spec fn be32_value(b: Seq<u8>) -> u32
    recommends
        b.len() >= 4,
{
    ((b[0] as u32) << 24u32) | ((b[1] as u32) << 16u32) | ((b[2] as u32) << 8u32) | (b[3] as u32)
}

/// The 64-bit value read big-endian from the first eight bytes of `b`.
pub open spec fn be64_value(b: Seq<u8>) -> u64
    recommends
        b.len() >= 8,
{
    ((b[0] as u64) << 56u64) | ((b[1] as u64) << 48u64) | ((b[2] as u64) << 40u64) | ((b[3] as u64)
        << 32u64) | ((b[4] as u64) << 24u64) | ((b[5] as u64) << 16u64) | ((b[6] as u64) << 8u64)
        | (b[7] as u64)
}

/// Reading back the big-endian bytes of a 16-bit value gives the value.
pub proof fn lemma_be16_round_trip(x: u16)
    ensures
        be16_value(be16(x)) == x,
{
    let b0 = (x >> 8u16) as u8;
    let b1 = x as u8;
    assert(((b0 as u16) << 8u16) | (b1 as u16) == x) by (bit_vector)
        requires
            b0 == (x >> 8u16) as u8,
            b1 == x as u8,
    ;
}

/// Reading back the big-endian bytes of a 32-bit value gives the value.
pub proof fn lemma_be32_round_trip(x: u32)
    ensures
        be32_value(be32(x)) == x,
{
    let b0 = (x >> 24u32) as u8;
    let b1 = (x >> 16u32) as u8;
    let b2 = (x >> 8u32) as u8;
    let b3 = x as u8;
    assert(((b0 as u32) << 24u32) | ((b1 as u32) << 16u32) | ((b2 as u32) << 8u32) | (b3 as u32)
        == x) by (bit_vector)
        requires
            b0 == (x >> 24u32) as u8,
            b1 == (x >> 16u32) as u8,
            b2 == (x >> 8u32) as u8,
            b3 == x as u8,
    ;
}

/// Reading back the big-endian bytes of a 64-bit value gives the value.
pub proof fn lemma_be64_round_trip(x: u64)
    ensures
        be64_value(be64(x)) == x,
{
    let b0 = (x >> 56u64) as u8;
    let b1 = (x >> 48u64) as u8;
    let b2 = (x >> 40u64) as u8;
    let b3 = (x >> 32u64) as u8;
    let b4 = (x >> 24u64) as u8;
    let b5 = (x >> 16u64) as u8;
    let b6 = (x >> 8u64) as u8;
    let b7 = x as u8;
    assert(((b0 as u64) << 56u64) | ((b1 as u64) << 48u64) | ((b2 as u64) << 40u64) | ((b3 as u64)
        << 32u64) | ((b4 as u64) << 24u64) | ((b5 as u64) << 16u64) | ((b6 as u64) << 8u64) | (
    b7 as u64) == x) by (bit_vector)
        requires
            b0 == (x >> 56u64) as u8,
            b1 == (x >> 48u64) as u8,
            b2 == (x >> 40u64) as u8,
            b3 == (x >> 32u64) as u8,
            b4 == (x >> 24u64) as u8,
            b5 == (x >> 16u64) as u8,
            b6 == (x >> 8u64) as u8,
            b7 == x as u8,
    ;
}

/// Equal big-endian encodings come from equal values.
pub proof fn lemma_be64_injective(x: u64, y: u64)
    requires
        be64(x) == be64(y),
    ensures
        x == y,
{
    lemma_be64_round_trip(x);
    lemma_be64_round_trip(y);
}

/// Writing back a 16-bit value read from two bytes gives those bytes.
pub proof fn lemma_be16_bytes(b: Seq<u8>)
    requires
        b.len() == 2,
    ensures
        be16(be16_value(b)) == b,
{
    let (b0, b1) = (b[0], b[1]);
    let x = be16_value(b);
    assert((x >> 8u16) as u8 == b0 && x as u8 == b1) by (bit_vector)
        requires
            x == ((b0 as u16) << 8u16) | (b1 as u16),
    ;
    assert(be16(x) =~= b);
}

/// Writing back a 32-bit value read from four bytes gives those bytes.
pub proof fn lemma_be32_bytes(b: Seq<u8>)
    requires
        b.len() == 4,
    ensures
        be32(be32_value(b)) == b,
{
    let (b0, b1, b2, b3) = (b[0], b[1], b[2], b[3]);
    let x = be32_value(b);
    assert((x >> 24u32) as u8 == b0 && (x >> 16u32) as u8 == b1 && (x >> 8u32) as u8 == b2
        && x as u8 == b3) by (bit_vector)
        requires
            x == ((b0 as u32) << 24u32) | ((b1 as u32) << 16u32) | ((b2 as u32) << 8u32) | (
            b3 as u32),
    ;
    assert(be32(x) =~= b);
}

/// Writing back a 64-bit value read from eight bytes gives those bytes.
pub proof fn lemma_be64_bytes(b: Seq<u8>)
    requires
        b.len() == 8,
    ensures
        be64(be64_value(b)) == b,
{
    let (b0, b1, b2, b3, b4, b5, b6, b7) = (b[0], b[1], b[2], b[3], b[4], b[5], b[6], b[7]);
    let x = be64_value(b);
    assert((x >> 56u64) as u8 == b0 && (x >> 48u64) as u8 == b1 && (x >> 40u64) as u8 == b2 && (x
        >> 32u64) as u8 == b3 && (x >> 24u64) as u8 == b4 && (x >> 16u64) as u8 == b5 && (x
        >> 8u64) as u8 == b6 && x as u8 == b7) by (bit_vector)
        requires
            x == ((b0 as u64) << 56u64) | ((b1 as u64) << 48u64) | ((b2 as u64) << 40u64) | ((
            b3 as u64) << 32u64) | ((b4 as u64) << 24u64) | ((b5 as u64) << 16u64) | ((b6 as u64)
                << 8u64) | (b7 as u64),
    ;
    assert(be64(x) =~= b);
}

/// Builds a composite key from fixed-width big-endian fields.
pub struct KeySerializer {
    pub buf: Vec<u8>,
}

impl KeySerializer {
    pub fn new(capacity: usize) -> (r: Self)
        ensures
            r.buf@ == Seq::<u8>::empty(),
    {
        KeySerializer { buf: Vec::with_capacity(capacity) }
    }

    pub fn write_u8(self, x: u8) -> (r: Self)
        ensures
            r.buf@ == self.buf@.push(x),
    {
        let mut buf = self.buf;
        buf.push(x);
        KeySerializer { buf }
    }

    pub fn write_u16(self, x: u16) -> (r: Self)
        ensures
            r.buf@ == self.buf@ + be16(x),
    {
        let mut buf = self.buf;
        buf.push((x >> 8u16) as u8);
        buf.push(x as u8);
        assert(buf@ =~= self.buf@ + be16(x));
        KeySerializer { buf }
    }

    pub fn write_u32(self, x: u32) -> (r: Self)
        ensures
            r.buf@ == self.buf@ + be32(x),
    {
        let mut buf = self.buf;
        buf.push((x >> 24u32) as u8);
        buf.push((x >> 16u32) as u8);
        buf.push((x >> 8u32) as u8);
        buf.push(x as u8);
        assert(buf@ =~= self.buf@ + be32(x));
        KeySerializer { buf }
    }

    pub fn write_u64(self, x: u64) -> (r: Self)
        ensures
            r.buf@ == self.buf@ + be64(x),
    {
        let mut buf = self.buf;
        buf.push((x >> 56u64) as u8);
        buf.push((x >> 48u64) as u8);
        buf.push((x >> 40u64) as u8);
        buf.push((x >> 32u64) as u8);
        buf.push((x >> 24u64) as u8);
        buf.push((x >> 16u64) as u8);
        buf.push((x >> 8u64) as u8);
        buf.push(x as u8);
        assert(buf@ =~= self.buf@ + be64(x));
        KeySerializer { buf }
    }

    pub fn write_bytes(self, b: &[u8]) -> (r: Self)
        ensures
            r.buf@ == self.buf@ + b@,
    {
        let mut buf = self.buf;
        let mut i: usize = 0;
        while i < b.len()
            invariant
                i <= b@.len(),
                buf@ == self.buf@ + b@.subrange(0, i as int),
            decreases b@.len() - i,
        {
            buf.push(b[i]);
            i = i + 1;
            assert(buf@ =~= self.buf@ + b@.subrange(0, i as int));
        }
        assert(b@.subrange(0, b@.len() as int) =~= b@);
        KeySerializer { buf }
    }

    pub fn finalize(self) -> (r: Vec<u8>)
        ensures
            r@ == self.buf@,
    {
        self.buf
    }
}

/// Reads a big-endian `u32` at `offset`.
pub fn deserialize_be_u32(b: &[u8], offset: usize) -> (r: Result<u32, StoreError>)
    ensures
        offset + 4 <= b@.len() ==> r == Ok::<u32, StoreError>(
            be32_value(b@.subrange(offset as int, offset + 4)),
        ),
        offset + 4 > b@.len() ==> r == Err::<u32, StoreError>(StoreError::CorruptKey),
{
    if offset > b.len() || b.len() - offset < 4 {
        return Err(StoreError::CorruptKey);
    }
    Ok(((b[offset] as u32) << 24u32) | ((b[offset + 1] as u32) << 16u32) | ((b[offset + 2] as u32)
        << 8u32) | (b[offset + 3] as u32))
}

/// Reads a big-endian `u64` at `offset`.
pub fn deserialize_be_u64(b: &[u8], offset: usize) -> (r: Result<u64, StoreError>)
    ensures
        offset + 8 <= b@.len() ==> r == Ok::<u64, StoreError>(
            be64_value(b@.subrange(offset as int, offset + 8)),
        ),
        offset + 8 > b@.len() ==> r == Err::<u64, StoreError>(StoreError::CorruptKey),
{
    if offset > b.len() || b.len() - offset < 8 {
        return Err(StoreError::CorruptKey);
    }
    Ok(((b[offset] as u64) << 56u64) | ((b[offset + 1] as u64) << 48u64) | ((b[offset + 2] as u64)
        << 40u64) | ((b[offset + 3] as u64) << 32u64) | ((b[offset + 4] as u64) << 24u64) | ((b[offset
        + 5] as u64) << 16u64) | ((b[offset + 6] as u64) << 8u64) | (b[offset + 7] as u64))
}

/// Byte-wise equality of two buffers.
pub fn bytes_eq(a: &[u8], b: &[u8]) -> (r: bool)
    ensures
        r == (a@ == b@),
{
    if a.len() != b.len() {
        return false;
    }
    let mut i: usize = 0;
    while i < a.len()
        invariant
            a@.len() == b@.len(),
            i <= a@.len(),
            a@.subrange(0, i as int) == b@.subrange(0, i as int),
        decreases a@.len() - i,
    {
        if a[i] != b[i] {
            assert(a@[i as int] != b@[i as int]);
            return false;
        }
        i = i + 1;
        assert(a@.subrange(0, i as int) =~= a@.subrange(0, i - 1).push(a@[i - 1]));
        assert(b@.subrange(0, i as int) =~= b@.subrange(0, i - 1).push(b@[i - 1]));
    }
    assert(a@ =~= a@.subrange(0, a@.len() as int));
    assert(b@ =~= b@.subrange(0, b@.len() as int));
    true
}

/// Whether `b` begins with `p`.
pub fn starts_with(b: &[u8], p: &[u8]) -> (r: bool)
    ensures
        r == (p@.len() <= b@.len() && b@.subrange(0, p@.len() as int) == p@),
{
    if p.len() > b.len() {
        return false;
    }
    let mut i: usize = 0;
    while i < p.len()
        invariant
            p@.len() <= b@.len(),
            i <= p@.len(),
            b@.subrange(0, i as int) == p@.subrange(0, i as int),
        decreases p@.len() - i,
    {
        if b[i] != p[i] {
            assert(b@.subrange(0, p@.len() as int)[i as int] != p@[i as int]);
            return false;
        }
        i = i + 1;
        assert(b@.subrange(0, i as int) =~= b@.subrange(0, i - 1).push(b@[i - 1]));
        assert(p@.subrange(0, i as int) =~= p@.subrange(0, i - 1).push(p@[i - 1]));
    }
    assert(p@ =~= p@.subrange(0, p@.len() as int));
    true
}

} // verus!
