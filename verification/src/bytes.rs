//! Big-endian integers and a cursor over a byte image.

use vstd::prelude::*;
use vstd::slice::slice_subrange;
use crate::error::{DecodeError, IoCause};

verus! {

/// The number that a sequence of bytes denotes when read big-endian:
/// each further byte multiplies what came before by 256.
pub open spec fn be_value(bytes: Seq<u8>) -> nat
    decreases bytes.len(),
{
    if bytes.len() == 0 {
        0
    } else {
        be_value(bytes.drop_last()) * 256 + bytes.last() as nat
    }
}

/// `256^n`.
pub open spec fn pow256(n: nat) -> nat
    decreases n,
{
    if n == 0 {
        1
    } else {
        256 * pow256((n - 1) as nat)
    }
}

/// A big-endian number of `n` bytes is below `256^n`.
pub proof fn lemma_be_value_bound(bytes: Seq<u8>)
    ensures
        be_value(bytes) < pow256(bytes.len()),
    decreases bytes.len(),
{
    if bytes.len() > 0 {
        lemma_be_value_bound(bytes.drop_last());
    }
}

/// The values of `256^n` for the widths that fit a machine word.
pub proof fn lemma_pow256_values()
    ensures
        pow256(0) == 1,
        pow256(1) == 0x100,
        pow256(2) == 0x1_0000,
        pow256(3) == 0x100_0000,
        pow256(4) == 0x1_0000_0000,
        pow256(5) == 0x100_0000_0000,
        pow256(6) == 0x1_0000_0000_0000,
        pow256(7) == 0x100_0000_0000_0000,
        pow256(8) == 0x1_0000_0000_0000_0000,
{
    reveal_with_fuel(pow256, 10);
}

/// `256^n` grows with `n`.
pub proof fn lemma_pow256_monotonic(a: nat, b: nat)
    requires
        a <= b,
    ensures
        pow256(a) <= pow256(b),
    decreases b,
{
    if a < b {
        lemma_pow256_monotonic(a, (b - 1) as nat);
    }
}

/// The sum of `bytes[i] * 256^(len - 1 - i)` over the bytes: the first
/// byte weighs most.
pub open spec fn weighted_sum(bytes: Seq<u8>) -> nat
    decreases bytes.len(),
{
    if bytes.len() == 0 {
        0
    } else {
        bytes[0] as nat * pow256((bytes.len() - 1) as nat) + weighted_sum(bytes.skip(1))
    }
}

/// One more byte at the end multiplies the weighted sum by 256 and adds
/// the byte.
pub proof fn lemma_weighted_sum_last(bytes: Seq<u8>)
    requires
        bytes.len() > 0,
    ensures
        weighted_sum(bytes) == weighted_sum(bytes.drop_last()) * 256 + bytes.last() as nat,
    decreases bytes.len(),
{
    if bytes.len() == 1 {
        assert(weighted_sum(bytes.skip(1)) == 0);
        assert(weighted_sum(bytes.drop_last()) == 0);
        assert(pow256(0) == 1);
    } else {
        let front = bytes.drop_last();
        let rest = bytes.skip(1);
        lemma_weighted_sum_last(rest);
        assert(front.skip(1) =~= rest.drop_last());
        assert(rest.last() == bytes.last());
        let first = bytes[0] as nat;
        let weight = pow256((bytes.len() - 2) as nat);
        assert(pow256((bytes.len() - 1) as nat) == 256 * weight);
        assert(first * (256 * weight) == (first * weight) * 256) by (nonlinear_arith);
        assert(front[0] == bytes[0]);
        assert(weighted_sum(front) == first * weight + weighted_sum(front.skip(1)));
        assert(weighted_sum(bytes) == first * (256 * weight) + weighted_sum(rest));
        assert((first * weight + weighted_sum(front.skip(1))) * 256 == (first * weight) * 256
            + weighted_sum(front.skip(1)) * 256);
    }
}

/// The big-endian value of a sequence of bytes is the sum of
/// `bytes[i] * 256^(len - 1 - i)`.
pub proof fn lemma_be_value_is_weighted_sum(bytes: Seq<u8>)
    ensures
        be_value(bytes) == weighted_sum(bytes),
    decreases bytes.len(),
{
    if bytes.len() > 0 {
        lemma_be_value_is_weighted_sum(bytes.drop_last());
        lemma_weighted_sum_last(bytes);
    }
}

/// Decodes up to eight bytes as a big-endian unsigned integer.
pub fn to_u64(source: &[u8]) -> (value: u64)
    requires
        source@.len() <= 8,
    ensures
        value == be_value(source@),
{
    let mut acc: u64 = 0;
    let mut i: usize = 0;
    while i < source.len()
        invariant
            i <= source@.len() <= 8,
            acc == be_value(source@.take(i as int)),
        decreases source@.len() - i,
    {
        proof {
            let prefix = source@.take(i as int);
            let longer = source@.take(i + 1);
            assert(longer.drop_last() =~= prefix);
            assert(longer.last() == source@[i as int]);
            lemma_be_value_bound(prefix);
            lemma_pow256_values();
            lemma_pow256_monotonic(i as nat, 7);
        }
        acc = acc * 256 + source[i] as u64;
        i += 1;
    }
    proof {
        assert(source@.take(i as int) =~= source@);
    }
    acc
}

/// Decodes up to eight bytes big-endian and keeps the low 32 bits.
pub fn to_u32(source: &[u8]) -> (value: u32)
    requires
        source@.len() <= 8,
    ensures
        value == be_value(source@) % 0x1_0000_0000,
        source@.len() <= 4 ==> value == be_value(source@),
{
    proof {
        lemma_be_value_bound(source@);
        lemma_pow256_values();
        if source@.len() <= 4 {
            lemma_pow256_monotonic(source@.len(), 4);
        }
    }
    let wide = to_u64(source);
    (wide % 0x1_0000_0000) as u32
}

/// A cursor over a byte image: a position that reads advance and seeks
/// move. The position may lie beyond the end of the image; reads there
/// find nothing.
pub struct ByteReader<'a> {
    data: &'a [u8],
    pos: u64,
}

/// The number of bytes of an image of `len` bytes that lie at or after
/// `pos`.
pub open spec fn available(len: nat, pos: nat) -> nat {
    if pos <= len {
        (len - pos) as nat
    } else {
        0
    }
}

/// The `n` bytes of `source` that start at `pos`.
pub open spec fn span(source: Seq<u8>, pos: nat, n: nat) -> Seq<u8> {
    if n == 0 {
        Seq::empty()
    } else {
        source.subrange(pos as int, (pos + n) as int)
    }
}

impl<'a> ByteReader<'a> {
    /// The image that the cursor reads.
    pub closed spec fn source(&self) -> Seq<u8> {
        self.data@
    }

    /// The offset of the next byte to read.
    pub closed spec fn offset(&self) -> u64 {
        self.pos
    }

    /// A cursor at the start of `data`.
    pub fn new(data: &'a [u8]) -> (reader: Self)
        ensures
            reader.source() == data@,
            reader.offset() == 0,
    {
        ByteReader { data, pos: 0 }
    }

    /// The current position.
    pub fn position(&self) -> (pos: u64)
        ensures
            pos == self.offset(),
    {
        self.pos
    }

    /// The number of bytes between the position and the end of the image.
    pub fn remaining(&self) -> (left: u64)
        ensures
            left == available(self.source().len(), self.offset() as nat),
            self.source().len() <= usize::MAX,
    {
        let len = self.data.len() as u64;
        if self.pos <= len {
            len - self.pos
        } else {
            0
        }
    }

    /// Reads exactly `n` bytes and advances past them, or fails without
    /// moving when fewer than `n` are left.
    pub fn read_exact(&mut self, n: u64) -> (result: Result<&'a [u8], DecodeError>)
        ensures
            final(self).source() == old(self).source(),
            match result {
                Ok(bytes) => {
                    &&& n <= available(old(self).source().len(), old(self).offset() as nat)
                    &&& bytes@ == span(old(self).source(), old(self).offset() as nat, n as nat)
                    &&& final(self).offset() == old(self).offset() + n
                },
                Err(e) => {
                    &&& n > available(old(self).source().len(), old(self).offset() as nat)
                    &&& e == (DecodeError::TruncatedError {
                        offset: old(self).offset(),
                        expected: n,
                        got: available(old(self).source().len(), old(self).offset() as nat) as u64,
                    })
                    &&& final(self).offset() == old(self).offset()
                },
            },
    {
        let left = self.remaining();
        if n == 0 {
            Ok(slice_subrange(self.data, 0, 0))
        } else if n <= left {
            let start = self.pos as usize;
            let end = (self.pos + n) as usize;
            let bytes = slice_subrange(self.data, start, end);
            self.pos = self.pos + n;
            Ok(bytes)
        } else {
            Err(DecodeError::TruncatedError { offset: self.pos, expected: n, got: left })
        }
    }

    /// Reads up to `n` bytes, as many as are left, and advances past
    /// them. An empty result for a positive `n` means the end of the image.
    pub fn read_into(&mut self, n: u64) -> (bytes: &'a [u8])
        ensures
            final(self).source() == old(self).source(),
            bytes@.len() == if n <= available(old(self).source().len(), old(self).offset() as nat) {
                n as nat
            } else {
                available(old(self).source().len(), old(self).offset() as nat)
            },
            bytes@ == span(old(self).source(), old(self).offset() as nat, bytes@.len()),
            final(self).offset() == old(self).offset() + bytes@.len(),
    {
        let left = self.remaining();
        let count = if n <= left { n } else { left };
        if count == 0 {
            slice_subrange(self.data, 0, 0)
        } else {
            let start = self.pos as usize;
            let end = (self.pos + count) as usize;
            let bytes = slice_subrange(self.data, start, end);
            self.pos = self.pos + count;
            bytes
        }
    }

    /// Moves to `offset`, which may lie beyond the end of the image.
    pub fn seek_absolute(&mut self, offset: u64)
        ensures
            final(self).source() == old(self).source(),
            final(self).offset() == offset,
    {
        self.pos = offset;
    }

    /// Moves by `delta` bytes, or fails without moving when the target
    /// would be negative or exceed `u64::MAX`.
    pub fn seek_relative(&mut self, delta: i64) -> (result: Result<(), DecodeError>)
        ensures
            final(self).source() == old(self).source(),
            match result {
                Ok(_) => {
                    &&& 0 <= old(self).offset() + delta <= u64::MAX
                    &&& final(self).offset() == old(self).offset() + delta
                },
                Err(e) => {
                    &&& !(0 <= old(self).offset() + delta <= u64::MAX)
                    &&& e == (DecodeError::IoError { source: IoCause::SeekOutOfRange })
                    &&& final(self).offset() == old(self).offset()
                },
            },
    {
        if delta >= 0 {
            let step = delta as u64;
            if step <= u64::MAX - self.pos {
                self.pos = self.pos + step;
                Ok(())
            } else {
                Err(DecodeError::IoError { source: IoCause::SeekOutOfRange })
            }
        } else {
            let back: u64 = if delta == i64::MIN {
                0x8000_0000_0000_0000u64
            } else {
                (-delta) as u64
            };
            if back <= self.pos {
                self.pos = self.pos - back;
                Ok(())
            } else {
                Err(DecodeError::IoError { source: IoCause::SeekOutOfRange })
            }
        }
    }
}

} // verus!
