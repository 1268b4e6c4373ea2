//! Byte buffers with checked access to bytes, little-endian integers and bits.
use crate::error::{Error, ErrorModel};
use vstd::prelude::*;
use vstd::slice::slice_to_vec;
use vstd::string::*;

verus! {

/// Bit `j` of a byte.
pub open spec fn bit8(b: u8, j: int) -> bool {
    (b >> (j as u8)) & 1 == 1
}

/// Bit `j` of a 32-bit value.
pub open spec fn bit32(v: u32, j: int) -> bool {
    (v >> (j as u32)) & 1 == 1
}

/// Bit `j` of a 64-bit value.
pub open spec fn bit64(v: u64, j: int) -> bool {
    (v >> (j as u64)) & 1 == 1
}

/// Bit `k` of a buffer, counted from the least significant bit of its first
/// byte.
pub open spec fn bit_at(data: Seq<u8>, k: int) -> bool {
    bit8(data[k / 8], k % 8)
}

/// Whether `count` bytes at `offset` lie inside a buffer of `len` bytes.
pub open spec fn in_bounds(len: nat, offset: int, count: int) -> bool {
    offset + count <= len
}

/// The error of an access outside of the buffer.
pub open spec fn out_of_bounds() -> ErrorModel {
    ErrorModel::RuntimeError("buffer access out of bounds"@)
}

/// The number that little-endian bytes write.
pub open spec fn le_value(bytes: Seq<u8>) -> int
    decreases bytes.len(),
{
    if bytes.len() == 0 {
        0
    } else {
        bytes[0] + 256 * le_value(bytes.skip(1))
    }
}

/// The `n` little-endian bytes of a number.
pub open spec fn le_bytes(v: int, n: nat) -> Seq<u8>
    decreases n,
{
    if n == 0 {
        Seq::empty()
    } else {
        seq![(v % 256) as u8] + le_bytes(v / 256, (n - 1) as nat)
    }
}

/// The number of values of `n` bytes.
pub open spec fn range256(n: nat) -> int
    decreases n,
{
    if n == 0 {
        1
    } else {
        256 * range256((n - 1) as nat)
    }
}

/// The buffer with `bytes` written at `offset`.
pub open spec fn overwritten(data: Seq<u8>, offset: int, bytes: Seq<u8>) -> Seq<u8> {
    data.take(offset) + bytes + data.skip(offset + bytes.len())
}

/// The buffer after a write of `count` bits of `value` at `bit_offset`: those
/// bits are the ones of the value, and every other bit is as before.
pub open spec fn bits_written(
    before: Seq<u8>,
    after: Seq<u8>,
    bit_offset: int,
    count: int,
    value: u32,
) -> bool {
    &&& after.len() == before.len()
    &&& forall|k: int|
        0 <= k < 8 * before.len() ==> #[trigger] bit_at(after, k) == (if bit_offset <= k
            < bit_offset + count {
            bit32(value, k - bit_offset)
        } else {
            bit_at(before, k)
        })
}

/// Little-endian bytes write a number in their range.
pub proof fn lemma_le_value(bytes: Seq<u8>)
    ensures
        0 <= le_value(bytes) < range256(bytes.len()),
    decreases bytes.len(),
{
    if bytes.len() > 0 {
        lemma_le_value(bytes.skip(1));
    }
}

/// Writing a number and reading it back gives the number.
pub proof fn law_le_round_trip(v: int, n: nat)
    requires
        0 <= v < range256(n),
    ensures
        le_bytes(v, n).len() == n,
        le_value(le_bytes(v, n)) == v,
    decreases n,
{
    if n > 0 {
        law_le_round_trip(v / 256, (n - 1) as nat);
        let tail = le_bytes(v / 256, (n - 1) as nat);
        assert(le_bytes(v, n).skip(1) =~= tail);
    }
}

/// A number of bytes is written with as many bytes as were asked for.
pub proof fn lemma_le_bytes_len(v: int, n: nat)
    ensures
        le_bytes(v, n).len() == n,
    decreases n,
{
    if n > 0 {
        lemma_le_bytes_len(v / 256, (n - 1) as nat);
    }
}

/// A byte buffer.
#[derive(Debug)]
pub struct Buffer {
    pub data: Vec<u8>,
}

/// The error of an access outside of the buffer.
fn buffer_access_out_of_bounds() -> (r: Error)
    ensures
        r@ == out_of_bounds(),
{
    Error::runtime("buffer access out of bounds")
}

/// Checks a byte range and returns its end.
fn checked_byte_range(len: usize, offset: usize, count: usize) -> (r: Result<usize, Error>)
    ensures
        match r {
            Ok(end) => in_bounds(len as nat, offset as int, count as int) && end == offset + count,
            Err(e) => !in_bounds(len as nat, offset as int, count as int) && e@ == out_of_bounds(),
        },
{
    match offset.checked_add(count) {
        None => Err(buffer_access_out_of_bounds()),
        Some(end) => {
            if end > len {
                return Err(buffer_access_out_of_bounds());
            }
            Ok(end)
        },
    }
}

/// The error of an access to bits, if there is one: too many bits, or bits
/// outside of the buffer. A buffer whose bits cannot be counted has none.
pub open spec fn bits_fault(len: nat, bit_offset: int, bit_count: int) -> Option<ErrorModel> {
    if bit_count > 32 {
        Some(ErrorModel::RuntimeError("bit count is out of range of [0; 32]"@))
    } else if bit_offset + bit_count > 8 * len || 8 * len > usize::MAX {
        Some(out_of_bounds())
    } else {
        None
    }
}

/// Checks a range of bits and returns the range of bytes that holds it.
fn checked_bit_range(len: usize, bit_offset: usize, bit_count: u8) -> (r: Result<
    (usize, usize),
    Error,
>)
    ensures
        match r {
            Ok((start, end)) => bits_fault(len as nat, bit_offset as int, bit_count as int) is None
                && start == bit_offset / 8 && start <= end + 1 && end <= len && 8 * end
                >= bit_offset + bit_count && end <= start + 5 && (bit_count > 0 ==> start < end),
            Err(e) => bits_fault(len as nat, bit_offset as int, bit_count as int) == Some(e@),
        },
{
    if bit_count > 32 {
        return Err(Error::runtime("bit count is out of range of [0; 32]"));
    }
    let bit_end: usize = match bit_offset.checked_add(bit_count as usize) {
        Some(bit_end) => bit_end,
        None => {
            return Err(buffer_access_out_of_bounds());
        },
    };
    let bit_len: usize = match len.checked_mul(8) {
        Some(bit_len) => bit_len,
        None => {
            return Err(buffer_access_out_of_bounds());
        },
    };
    if bit_end > bit_len {
        return Err(buffer_access_out_of_bounds());
    }
    let start: usize = bit_offset / 8;
    let end: usize = bit_end.saturating_add(7) / 8;
    Ok((start, end))
}

impl Buffer {
    /// The bytes of the buffer.
    pub open spec fn view(&self) -> Seq<u8> {
        self.data@
    }

    /// A buffer with the given bytes.
    pub fn new(data: Vec<u8>) -> (r: Self)
        ensures
            r@ == data@,
    {
        Buffer { data }
    }

    /// Copies the buffer data.
    pub fn to_vec(&self) -> (r: Vec<u8>)
        ensures
            r@ == self@,
    {
        slice_to_vec(self.data.as_slice())
    }

    /// Returns the length of the buffer.
    pub fn len(&self) -> (r: usize)
        ensures
            r == self@.len(),
    {
        self.data.len()
    }

    /// Returns `true` if the buffer is empty.
    pub fn is_empty(&self) -> (r: bool)
        ensures
            r == (self@.len() == 0),
    {
        self.data.len() == 0
    }

    /// Reads `count` bytes at an offset that must lie inside the buffer.
    pub fn read_bytes(&self, offset: usize, count: usize) -> (r: Vec<u8>)
        requires
            in_bounds(self@.len(), offset as int, count as int),
        ensures
            r@ == self@.subrange(offset as int, offset + count),
    {
        let mut out: Vec<u8> = Vec::new();
        let total: usize = self.data.len();
        let mut i: usize = 0;
        while i < count
            invariant
                i <= count,
                total == self@.len(),
                in_bounds(self@.len(), offset as int, count as int),
                out@ == self@.subrange(offset as int, offset + i),
            decreases count - i,
        {
            out.push(self.data[offset + i]);
            i += 1;
            assert(out@ =~= self@.subrange(offset as int, offset + i));
        }
        out
    }

    /// Writes bytes at an offset at which they must fit.
    pub fn write_bytes(&mut self, offset: usize, bytes: &[u8])
        requires
            in_bounds(old(self)@.len(), offset as int, bytes@.len() as int),
        ensures
            final(self)@ == overwritten(old(self)@, offset as int, bytes@),
    {
        let mut i: usize = 0;
        let total: usize = self.data.len();
        let ghost before = self@;
        assert(before =~= overwritten(before, offset as int, bytes@.take(0)));
        while i < bytes.len()
            invariant
                i <= bytes.len(),
                in_bounds(before.len(), offset as int, bytes@.len() as int),
                self@ == overwritten(before, offset as int, bytes@.take(i as int)),
                self@.len() == before.len() == total,
            decreases bytes.len() - i,
        {
            let ghost now = self@;
            self.data.set(offset + i, bytes[i]);
            assert(self@ =~= overwritten(before, offset as int, bytes@.take(i + 1)));
            i += 1;
        }
        assert(bytes@.take(i as int) =~= bytes@);
    }

    /// Reads `count` bytes at an offset, or fails where they are not there.
    pub fn try_read_bytes(&self, offset: usize, count: usize) -> (r: Result<Vec<u8>, Error>)
        ensures
            match r {
                Ok(v) => in_bounds(self@.len(), offset as int, count as int) && v@
                    == self@.subrange(offset as int, offset + count),
                Err(e) => !in_bounds(self@.len(), offset as int, count as int) && e@
                    == out_of_bounds(),
            },
    {
        match checked_byte_range(self.data.len(), offset, count) {
            Err(e) => Err(e),
            Ok(_) => Ok(self.read_bytes(offset, count)),
        }
    }

    /// Writes bytes at an offset, or fails and writes nothing where they do
    /// not fit.
    pub fn try_write_bytes(&mut self, offset: usize, bytes: &[u8]) -> (r: Result<(), Error>)
        ensures
            match r {
                Ok(()) => in_bounds(old(self)@.len(), offset as int, bytes@.len() as int)
                    && final(self)@ == overwritten(old(self)@, offset as int, bytes@),
                Err(e) => !in_bounds(old(self)@.len(), offset as int, bytes@.len() as int)
                    && final(self)@ == old(self)@ && e@ == out_of_bounds(),
            },
    {
        match checked_byte_range(self.data.len(), offset, bytes.len()) {
            Err(e) => Err(e),
            Ok(_) => {
                self.write_bytes(offset, bytes);
                Ok(())
            },
        }
    }

    /// Reads an unsigned little-endian number of up to eight bytes.
    fn read_number(&self, offset: usize, count: usize) -> (r: Result<u64, Error>)
        requires
            count <= 8,
        ensures
            match r {
                Ok(v) => in_bounds(self@.len(), offset as int, count as int) && v == le_value(
                    self@.subrange(offset as int, offset + count),
                ) && v < range256(count as nat),
                Err(e) => !in_bounds(self@.len(), offset as int, count as int) && e@
                    == out_of_bounds(),
            },
    {
        let bytes: Vec<u8> = match self.try_read_bytes(offset, count) {
            Ok(bytes) => bytes,
            Err(e) => {
                return Err(e);
            },
        };
        let mut value: u64 = 0;
        let mut i: usize = count;
        assert(bytes@.skip(count as int) =~= Seq::empty());
        while i > 0
            invariant
                i <= count <= 8,
                bytes@.len() == count,
                value == le_value(bytes@.skip(i as int)),
            decreases i,
        {
            i -= 1;
            proof {
                let tail = bytes@.skip(i as int);
                assert(tail.skip(1) =~= bytes@.skip(i + 1));
                lemma_le_value(bytes@.skip(i + 1));
                lemma_range256((count - i - 1) as nat);
            }
            value = value * 256 + bytes[i] as u64;
        }
        assert(bytes@.skip(0) =~= bytes@);
        proof {
            lemma_le_value(bytes@);
        }
        Ok(value)
    }

    /// Writes an unsigned little-endian number of up to eight bytes.
    fn write_number(&mut self, offset: usize, value: u64, count: usize) -> (r: Result<(), Error>)
        requires
            count <= 8,
        ensures
            match r {
                Ok(()) => in_bounds(old(self)@.len(), offset as int, count as int) && final(self)@
                    == overwritten(
                    old(self)@,
                    offset as int,
                    le_bytes(value as int, count as nat),
                ),
                Err(e) => !in_bounds(old(self)@.len(), offset as int, count as int)
                    && final(self)@ == old(self)@ && e@ == out_of_bounds(),
            },
    {
        let mut bytes: Vec<u8> = Vec::new();
        let mut rest: u64 = value;
        let mut i: usize = 0;
        let ghost goal = le_bytes(value as int, count as nat);
        assert(bytes@ + le_bytes(rest as int, count as nat) =~= goal);
        while i < count
            invariant
                i <= count,
                bytes@ + le_bytes(rest as int, (count - i) as nat) == goal,
            decreases count - i,
        {
            let ghost before = bytes@;
            let low: u8 = (rest % 256) as u8;
            bytes.push(low);
            proof {
                let tail = le_bytes(rest as int / 256, (count - i - 1) as nat);
                assert(before + (seq![low] + tail) =~= bytes@ + tail);
            }
            rest = rest / 256;
            i += 1;
        }
        assert(bytes@ =~= goal);
        proof {
            lemma_le_bytes_len(value as int, count as nat);
        }
        self.try_write_bytes(offset, bytes.as_slice())
    }
}

/// Small ranges, as numbers.
proof fn lemma_range256(n: nat)
    ensures
        n <= 7 ==> range256(n) <= 0x100_0000_0000_0000,
        range256(0) == 1,
        range256(1) == 0x100,
        range256(2) == 0x1_0000,
        range256(4) == 0x1_0000_0000,
        range256(8) == 0x1_0000_0000_0000_0000,
{
    reveal_with_fuel(range256, 9);
}

/// The signed number that `n` bytes write in two's complement.
pub open spec fn signed(v: int, n: nat) -> int {
    if 2 * v >= range256(n) {
        v - range256(n)
    } else {
        v
    }
}

/// The bytes of a signed number, as an unsigned one.
pub open spec fn unsigned(v: int, n: nat) -> int {
    if v < 0 {
        v + range256(n)
    } else {
        v
    }
}

/// A signed number survives being written and read.
pub proof fn law_signed_round_trip(v: int, n: nat)
    requires
        n > 0,
        -range256(n) <= 2 * v < range256(n),
    ensures
        signed(le_value(le_bytes(unsigned(v, n), n)), n) == v,
{
    lemma_range_even(n);
    law_le_round_trip(unsigned(v, n), n);
}

proof fn lemma_range_even(n: nat)
    ensures
        range256(n) >= 1,
    decreases n,
{
    if n > 0 {
        lemma_range_even((n - 1) as nat);
    }
}

/// The signed number of 8 bits.
fn to_i8(raw: u8) -> (r: i8)
    ensures
        r == signed(raw as int, 1),
{
    proof {
        lemma_range256(0);
    }
    assert(raw < 0x80 ==> (raw as i8) == raw) by (bit_vector);
    assert(raw >= 0x80 ==> (raw as i8) == raw - 0x100) by (bit_vector);
    raw as i8
}

/// The unsigned bits of a signed number of 8 bits.
fn from_i8(value: i8) -> (r: u8)
    ensures
        r == unsigned(value as int, 1),
{
    proof {
        lemma_range256(0);
    }
    assert(value >= 0 ==> (value as u8) == value) by (bit_vector);
    assert(value < 0 ==> (value as u8) == value + 0x100) by (bit_vector);
    value as u8
}

/// The signed number of 16 bits.
fn to_i16(raw: u16) -> (r: i16)
    ensures
        r == signed(raw as int, 2),
{
    proof {
        lemma_range256(0);
    }
    assert(raw < 0x8000 ==> (raw as i16) == raw) by (bit_vector);
    assert(raw >= 0x8000 ==> (raw as i16) == raw - 0x1_0000) by (bit_vector);
    raw as i16
}

/// The unsigned bits of a signed number of 16 bits.
fn from_i16(value: i16) -> (r: u16)
    ensures
        r == unsigned(value as int, 2),
{
    proof {
        lemma_range256(0);
    }
    assert(value >= 0 ==> (value as u16) == value) by (bit_vector);
    assert(value < 0 ==> (value as u16) == value + 0x1_0000) by (bit_vector);
    value as u16
}

/// The signed number of 32 bits.
fn to_i32(raw: u32) -> (r: i32)
    ensures
        r == signed(raw as int, 4),
{
    proof {
        lemma_range256(0);
    }
    assert(raw < 0x8000_0000 ==> (raw as i32) == raw) by (bit_vector);
    assert(raw >= 0x8000_0000 ==> (raw as i32) == raw - 0x1_0000_0000) by (bit_vector);
    raw as i32
}

/// The unsigned bits of a signed number of 32 bits.
fn from_i32(value: i32) -> (r: u32)
    ensures
        r == unsigned(value as int, 4),
{
    proof {
        lemma_range256(0);
    }
    assert(value >= 0 ==> (value as u32) == value) by (bit_vector);
    assert(value < 0 ==> (value as u32) == value + 0x1_0000_0000) by (bit_vector);
    value as u32
}

/// The signed number of 64 bits.
fn to_i64(raw: u64) -> (r: i64)
    ensures
        r == signed(raw as int, 8),
{
    proof {
        lemma_range256(0);
    }
    assert(raw < 0x8000_0000_0000_0000 ==> (raw as i64) == raw) by (bit_vector);
    assert(raw >= 0x8000_0000_0000_0000 ==> (raw as i64) == raw - 0x1_0000_0000_0000_0000) by (bit_vector);
    raw as i64
}

/// The unsigned bits of a signed number of 64 bits.
fn from_i64(value: i64) -> (r: u64)
    ensures
        r == unsigned(value as int, 8),
{
    proof {
        lemma_range256(0);
    }
    assert(value >= 0 ==> (value as u64) == value) by (bit_vector);
    assert(value < 0 ==> (value as u64) == value + 0x1_0000_0000_0000_0000) by (bit_vector);
    value as u64
}

impl Buffer {
    /// Reads a signed 8-bit integer at an offset.
    pub fn read_i8(&self, offset: usize) -> (r: Result<i8, Error>)
        ensures
            match r {
                Ok(v) => in_bounds(self@.len(), offset as int, 1) && v == signed(le_value(self@.subrange(offset as int, offset + 1)), 1),
                Err(e) => !in_bounds(self@.len(), offset as int, 1) && e@ == out_of_bounds(),
            },
    {
        match self.read_number(offset, 1) {
            Err(e) => Err(e),
            Ok(v) => {
                proof {
                    lemma_range256(0);
                }
                let raw: u8 = v as u8;
                Ok(to_i8(raw))
            },
        }
    }

    /// Reads an unsigned 8-bit integer at an offset.
    pub fn read_u8(&self, offset: usize) -> (r: Result<u8, Error>)
        ensures
            match r {
                Ok(v) => in_bounds(self@.len(), offset as int, 1) && v == le_value(self@.subrange(offset as int, offset + 1)),
                Err(e) => !in_bounds(self@.len(), offset as int, 1) && e@ == out_of_bounds(),
            },
    {
        match self.read_number(offset, 1) {
            Err(e) => Err(e),
            Ok(v) => {
                proof {
                    lemma_range256(0);
                }
                Ok(v as u8)
            },
        }
    }

    /// Reads a signed 16-bit integer at an offset.
    pub fn read_i16(&self, offset: usize) -> (r: Result<i16, Error>)
        ensures
            match r {
                Ok(v) => in_bounds(self@.len(), offset as int, 2) && v == signed(le_value(self@.subrange(offset as int, offset + 2)), 2),
                Err(e) => !in_bounds(self@.len(), offset as int, 2) && e@ == out_of_bounds(),
            },
    {
        match self.read_number(offset, 2) {
            Err(e) => Err(e),
            Ok(v) => {
                proof {
                    lemma_range256(0);
                }
                let raw: u16 = v as u16;
                Ok(to_i16(raw))
            },
        }
    }

    /// Reads an unsigned 16-bit integer at an offset.
    pub fn read_u16(&self, offset: usize) -> (r: Result<u16, Error>)
        ensures
            match r {
                Ok(v) => in_bounds(self@.len(), offset as int, 2) && v == le_value(self@.subrange(offset as int, offset + 2)),
                Err(e) => !in_bounds(self@.len(), offset as int, 2) && e@ == out_of_bounds(),
            },
    {
        match self.read_number(offset, 2) {
            Err(e) => Err(e),
            Ok(v) => {
                proof {
                    lemma_range256(0);
                }
                Ok(v as u16)
            },
        }
    }

    /// Reads a signed 32-bit integer at an offset.
    pub fn read_i32(&self, offset: usize) -> (r: Result<i32, Error>)
        ensures
            match r {
                Ok(v) => in_bounds(self@.len(), offset as int, 4) && v == signed(le_value(self@.subrange(offset as int, offset + 4)), 4),
                Err(e) => !in_bounds(self@.len(), offset as int, 4) && e@ == out_of_bounds(),
            },
    {
        match self.read_number(offset, 4) {
            Err(e) => Err(e),
            Ok(v) => {
                proof {
                    lemma_range256(0);
                }
                let raw: u32 = v as u32;
                Ok(to_i32(raw))
            },
        }
    }

    /// Reads an unsigned 32-bit integer at an offset.
    pub fn read_u32(&self, offset: usize) -> (r: Result<u32, Error>)
        ensures
            match r {
                Ok(v) => in_bounds(self@.len(), offset as int, 4) && v == le_value(self@.subrange(offset as int, offset + 4)),
                Err(e) => !in_bounds(self@.len(), offset as int, 4) && e@ == out_of_bounds(),
            },
    {
        match self.read_number(offset, 4) {
            Err(e) => Err(e),
            Ok(v) => {
                proof {
                    lemma_range256(0);
                }
                Ok(v as u32)
            },
        }
    }

    /// Reads a signed 64-bit integer at an offset.
    pub fn read_i64(&self, offset: usize) -> (r: Result<i64, Error>)
        ensures
            match r {
                Ok(v) => in_bounds(self@.len(), offset as int, 8) && v == signed(le_value(self@.subrange(offset as int, offset + 8)), 8),
                Err(e) => !in_bounds(self@.len(), offset as int, 8) && e@ == out_of_bounds(),
            },
    {
        match self.read_number(offset, 8) {
            Err(e) => Err(e),
            Ok(v) => {
                proof {
                    lemma_range256(0);
                }
                let raw: u64 = v as u64;
                Ok(to_i64(raw))
            },
        }
    }

    /// Reads an unsigned 64-bit integer at an offset.
    pub fn read_u64(&self, offset: usize) -> (r: Result<u64, Error>)
        ensures
            match r {
                Ok(v) => in_bounds(self@.len(), offset as int, 8) && v == le_value(self@.subrange(offset as int, offset + 8)),
                Err(e) => !in_bounds(self@.len(), offset as int, 8) && e@ == out_of_bounds(),
            },
    {
        match self.read_number(offset, 8) {
            Err(e) => Err(e),
            Ok(v) => Ok(v),
        }
    }

    /// Writes a signed 8-bit integer at an offset.
    pub fn write_i8(&mut self, offset: usize, value: i8) -> (r: Result<(), Error>)
        ensures
            match r {
                Ok(()) => in_bounds(old(self)@.len(), offset as int, 1) && final(self)@
                    == overwritten(old(self)@, offset as int, le_bytes(unsigned(value as int, 1), 1)),
                Err(e) => !in_bounds(old(self)@.len(), offset as int, 1) && final(self)@
                    == old(self)@ && e@ == out_of_bounds(),
            },
    {
        self.write_number(offset, from_i8(value) as u64, 1)
    }

    /// Writes an unsigned 8-bit integer at an offset.
    pub fn write_u8(&mut self, offset: usize, value: u8) -> (r: Result<(), Error>)
        ensures
            match r {
                Ok(()) => in_bounds(old(self)@.len(), offset as int, 1) && final(self)@
                    == overwritten(old(self)@, offset as int, le_bytes(value as int, 1)),
                Err(e) => !in_bounds(old(self)@.len(), offset as int, 1) && final(self)@
                    == old(self)@ && e@ == out_of_bounds(),
            },
    {
        self.write_number(offset, value as u64, 1)
    }

    /// Writes a signed 16-bit integer at an offset.
    pub fn write_i16(&mut self, offset: usize, value: i16) -> (r: Result<(), Error>)
        ensures
            match r {
                Ok(()) => in_bounds(old(self)@.len(), offset as int, 2) && final(self)@
                    == overwritten(old(self)@, offset as int, le_bytes(unsigned(value as int, 2), 2)),
                Err(e) => !in_bounds(old(self)@.len(), offset as int, 2) && final(self)@
                    == old(self)@ && e@ == out_of_bounds(),
            },
    {
        self.write_number(offset, from_i16(value) as u64, 2)
    }

    /// Writes an unsigned 16-bit integer at an offset.
    pub fn write_u16(&mut self, offset: usize, value: u16) -> (r: Result<(), Error>)
        ensures
            match r {
                Ok(()) => in_bounds(old(self)@.len(), offset as int, 2) && final(self)@
                    == overwritten(old(self)@, offset as int, le_bytes(value as int, 2)),
                Err(e) => !in_bounds(old(self)@.len(), offset as int, 2) && final(self)@
                    == old(self)@ && e@ == out_of_bounds(),
            },
    {
        self.write_number(offset, value as u64, 2)
    }

    /// Writes a signed 32-bit integer at an offset.
    pub fn write_i32(&mut self, offset: usize, value: i32) -> (r: Result<(), Error>)
        ensures
            match r {
                Ok(()) => in_bounds(old(self)@.len(), offset as int, 4) && final(self)@
                    == overwritten(old(self)@, offset as int, le_bytes(unsigned(value as int, 4), 4)),
                Err(e) => !in_bounds(old(self)@.len(), offset as int, 4) && final(self)@
                    == old(self)@ && e@ == out_of_bounds(),
            },
    {
        self.write_number(offset, from_i32(value) as u64, 4)
    }

    /// Writes an unsigned 32-bit integer at an offset.
    pub fn write_u32(&mut self, offset: usize, value: u32) -> (r: Result<(), Error>)
        ensures
            match r {
                Ok(()) => in_bounds(old(self)@.len(), offset as int, 4) && final(self)@
                    == overwritten(old(self)@, offset as int, le_bytes(value as int, 4)),
                Err(e) => !in_bounds(old(self)@.len(), offset as int, 4) && final(self)@
                    == old(self)@ && e@ == out_of_bounds(),
            },
    {
        self.write_number(offset, value as u64, 4)
    }

    /// Writes a signed 64-bit integer at an offset.
    pub fn write_i64(&mut self, offset: usize, value: i64) -> (r: Result<(), Error>)
        ensures
            match r {
                Ok(()) => in_bounds(old(self)@.len(), offset as int, 8) && final(self)@
                    == overwritten(old(self)@, offset as int, le_bytes(unsigned(value as int, 8), 8)),
                Err(e) => !in_bounds(old(self)@.len(), offset as int, 8) && final(self)@
                    == old(self)@ && e@ == out_of_bounds(),
            },
    {
        self.write_number(offset, from_i64(value), 8)
    }

    /// Writes an unsigned 64-bit integer at an offset.
    pub fn write_u64(&mut self, offset: usize, value: u64) -> (r: Result<(), Error>)
        ensures
            match r {
                Ok(()) => in_bounds(old(self)@.len(), offset as int, 8) && final(self)@
                    == overwritten(old(self)@, offset as int, le_bytes(value as int, 8)),
                Err(e) => !in_bounds(old(self)@.len(), offset as int, 8) && final(self)@
                    == old(self)@ && e@ == out_of_bounds(),
            },
    {
        self.write_number(offset, value, 8)
    }
}

/// Adding a byte to a word adds its bits.
proof fn lemma_or_byte(word: u64, byte: u8, shift: u64, j: u64)
    by (bit_vector)
    requires
        shift <= 56,
        j < 64,
    ensures
        (((word | ((byte as u64) << shift)) >> j) & 1 == 1) == ((word >> j) & 1 == 1 || (shift <= j
            && j < shift + 8 && (byte >> ((j - shift) as u8)) & 1 == 1)),
{
}

/// The bits of a masked and shifted word.
proof fn lemma_extract(word: u64, sub: u64, count: u64, mask: u64, j: u64)
    by (bit_vector)
    requires
        sub < 8,
        count <= 32,
        j < 32,
        mask == (if count == 32 {
            0xffff_ffffu64
        } else {
            ((1u64 << count) - 1) as u64
        }),
    ensures
        (((((word >> sub) & mask) as u32) >> (j as u32)) & 1 == 1) == (j < count && (word >> ((j
            + sub) as u64)) & 1 == 1),
{
}

/// The bits of a word after some were replaced.
proof fn lemma_replace(word: u64, value: u32, sub: u64, count: u64, mask: u64, j: u64)
    by (bit_vector)
    requires
        sub < 8,
        count <= 32,
        j < 64,
        mask == (if count == 32 {
            0xffff_ffffu64
        } else {
            ((1u64 << count) - 1) as u64
        }),
    ensures
        ((((word & !(mask << sub)) | (((value as u64) << sub) & (mask << sub))) >> j) & 1 == 1) == (
        if sub <= j && j < sub + count {
            (value >> ((j - sub) as u32)) & 1 == 1
        } else {
            (word >> j) & 1 == 1
        }),
{
}

/// The bits of a byte of a word.
proof fn lemma_byte_of(word: u64, shift: u64, j: u8)
    by (bit_vector)
    requires
        shift <= 56,
        j < 8,
    ensures
        (((word >> shift) as u8) >> j) & 1 == 1 <==> (word >> ((shift + j) as u64)) & 1 == 1,
{
}

/// Shifting a word twice.
proof fn lemma_shift_twice(word: u64, shift: u64)
    by (bit_vector)
    requires
        shift <= 48,
    ensures
        (word >> shift) >> 8 == word >> ((shift + 8) as u64),
{
}

/// No bit of zero is set.
proof fn lemma_zero_bits(j: u64)
    by (bit_vector)
    requires
        j < 64,
    ensures
        (0u64 >> j) & 1 != 1,
        0u64 >> 0 == 0,
{
}

/// The mask of the lowest bits.
fn bit_mask(bit_count: u8) -> (r: u64)
    requires
        bit_count <= 32,
    ensures
        r == (if bit_count == 32 {
            0xffff_ffffu64
        } else {
            ((1u64 << (bit_count as u64)) - 1) as u64
        }),
{
    if bit_count == 32 {
        0xffff_ffff
    } else {
        assert(bit_count < 32 ==> (1u64 << (bit_count as u64)) >= 1) by (bit_vector);
        (1u64 << (bit_count as u64)) - 1
    }
}

/// Whether the low bits of a word are those of the bytes from `start` on.
spec fn word_of(word: u64, data: Seq<u8>, start: int, n: int) -> bool {
    forall|j: int|
        0 <= j < 64 ==> #[trigger] bit64(word, j) == (j < 8 * n && bit8(data[start + j / 8], j % 8))
}

impl Buffer {
    /// Gathers up to eight bytes into a word.
    fn load_word(&self, start: usize, end: usize) -> (r: u64)
        requires
            end <= self@.len(),
            start <= end ==> end - start <= 7,
        ensures
            word_of(
                r,
                self@,
                start as int,
                if start <= end {
                    end - start
                } else {
                    0
                },
            ),
    {
        let mut word: u64 = 0;
        let mut at: usize = start;
        let mut shift: u64 = 0;
        proof {
            assert forall|j: int| 0 <= j < 64 implies !(#[trigger] bit64(word, j)) by {
                lemma_zero_bits(j as u64);
            }
        }
        while at < end
            invariant
                end <= self@.len(),
                start <= end ==> end - start <= 7,
                start <= at,
                start <= end ==> at <= end,
                start > end ==> at == start,
                shift == 8 * (at - start),
                word_of(word, self@, start as int, at - start),
            decreases end - at,
        {
            let byte: u8 = self.data[at];
            let ghost had = word;
            let ghost n = at - start;
            word = word | ((byte as u64) << shift);
            proof {
                assert forall|j: int| 0 <= j < 64 implies #[trigger] bit64(word, j) == (j < 8 * (n
                    + 1) && bit8(self@[start + j / 8], j % 8)) by {
                    lemma_or_byte(had, byte, shift, j as u64);
                    assert(bit64(had, j) == (j < 8 * n && bit8(self@[start + j / 8], j % 8)));
                    if shift <= j && j < shift + 8 {
                        assert(j / 8 == n);
                        assert(j % 8 == j - shift);
                    }
                }
            }
            at += 1;
            shift += 8;
        }
        word
    }

    /// Reads up to 32 bits at a bit offset; they are the lowest bits of the
    /// result.
    pub fn read_bits(&self, bit_offset: usize, bit_count: u8) -> (r: Result<u32, Error>)
        ensures
            match r {
                Ok(v) => bits_fault(self@.len(), bit_offset as int, bit_count as int) is None && (
                forall|j: int|
                    0 <= j < 32 ==> #[trigger] bit32(v, j) == (j < bit_count && bit_at(
                        self@,
                        bit_offset + j,
                    ))),
                Err(e) => bits_fault(self@.len(), bit_offset as int, bit_count as int) == Some(e@),
            },
    {
        let (start, end) = match checked_bit_range(self.data.len(), bit_offset, bit_count) {
            Ok(range) => range,
            Err(e) => {
                return Err(e);
            },
        };
        let word: u64 = self.load_word(start, end);
        let sub: u64 = (bit_offset % 8) as u64;
        let mask: u64 = bit_mask(bit_count);
        let r: u32 = ((word >> sub) & mask) as u32;
        proof {
            assert forall|j: int| 0 <= j < 32 implies #[trigger] bit32(r, j) == (j < bit_count
                && bit_at(self@, bit_offset + j)) by {
                lemma_extract(word, sub, bit_count as u64, mask, j as u64);
                if j < bit_count {
                    let k = j + sub;
                    assert(bit64(word, k) == (k < 8 * (end - start) && bit8(
                        self@[start + k / 8],
                        k % 8,
                    )));
                    assert((bit_offset + j) / 8 == start + k / 8);
                    assert((bit_offset + j) % 8 == k % 8);
                }
            }
        }
        Ok(r)
    }

    /// Writes up to 32 bits at a bit offset, from the lowest bits of the
    /// value; every other bit of the buffer stays as it is.
    pub fn write_bits(&mut self, bit_offset: usize, bit_count: u8, value: u32) -> (r: Result<
        (),
        Error,
    >)
        ensures
            match r {
                Ok(()) => bits_fault(old(self)@.len(), bit_offset as int, bit_count as int) is None
                    && bits_written(
                    old(self)@,
                    final(self)@,
                    bit_offset as int,
                    bit_count as int,
                    value,
                ),
                Err(e) => final(self)@ == old(self)@ && bits_fault(
                    old(self)@.len(),
                    bit_offset as int,
                    bit_count as int,
                ) == Some(e@),
            },
    {
        let (start, end) = match checked_bit_range(self.data.len(), bit_offset, bit_count) {
            Ok(range) => range,
            Err(e) => {
                return Err(e);
            },
        };
        let ghost before = self@;
        let had: u64 = self.load_word(start, end);
        let sub: u64 = (bit_offset % 8) as u64;
        let mask: u64 = bit_mask(bit_count);
        let word: u64 = (had & !(mask << sub)) | (((value as u64) << sub) & (mask << sub));
        let mut rest: u64 = word;
        let mut at: usize = start;
        let ghost mut shift: u64 = 0;
        proof {
            assert(word >> 0 == word) by (bit_vector);
        }
        while at < end
            invariant
                end <= before.len(),
                start <= end ==> end - start <= 5,
                start <= at,
                start <= end ==> at <= end,
                start > end ==> at == start,
                shift == 8 * (at - start),
                at < end ==> rest == word >> shift,
                self@.len() == before.len(),
                forall|i: int|
                    0 <= i < before.len() ==> #[trigger] self@[i] == (if start <= i < at {
                        (word >> ((8 * (i - start)) as u64)) as u8
                    } else {
                        before[i]
                    }),
            decreases end - at,
        {
            self.data.set(at, rest as u8);
            proof {
                if at + 1 < end {
                    lemma_shift_twice(word, shift);
                }
                shift = (shift + 8) as u64;
            }
            rest = rest >> 8;
            at += 1;
        }
        proof {
            let after = self@;
            assert forall|k: int| 0 <= k < 8 * before.len() implies #[trigger] bit_at(after, k) == (
            if bit_offset <= k < bit_offset + bit_count {
                bit32(value, k - bit_offset)
            } else {
                bit_at(before, k)
            }) by {
                let i = k / 8;
                let t = k % 8;
                assert(after[i] == (if start <= i < at {
                    (word >> ((8 * (i - start)) as u64)) as u8
                } else {
                    before[i]
                }));
                if start <= i < end {
                    let j = 8 * (i - start) + t;
                    lemma_byte_of(word, (8 * (i - start)) as u64, t as u8);
                    lemma_replace(had, value, sub, bit_count as u64, mask, j as u64);
                    assert(bit64(had, j) == (j < 8 * (end - start) && bit8(
                        before[start + j / 8],
                        j % 8,
                    )));
                    assert(j / 8 == i - start);
                    assert(j % 8 == t);
                    assert(k - bit_offset == j - sub);
                }
            }
        }
        Ok(())
    }
}

/// What was written to bits is read back from them.
pub proof fn law_bits_read_back(
    before: Seq<u8>,
    after: Seq<u8>,
    bit_offset: int,
    count: int,
    value: u32,
    j: int,
)
    requires
        bits_written(before, after, bit_offset, count, value),
        0 <= bit_offset,
        bit_offset + count <= 8 * before.len(),
        0 <= j < count,
    ensures
        bit_at(after, bit_offset + j) == bit32(value, j),
{
    assert(bit_at(after, bit_offset + j) == bit32(value, bit_offset + j - bit_offset));
}

/// What was written to bytes is read back from them, and the bytes around
/// them stay as they were.
pub proof fn law_bytes_read_back(data: Seq<u8>, offset: int, bytes: Seq<u8>)
    requires
        0 <= offset,
        in_bounds(data.len(), offset, bytes.len() as int),
    ensures
        overwritten(data, offset, bytes).len() == data.len(),
        overwritten(data, offset, bytes).subrange(offset, offset + bytes.len()) == bytes,
        forall|i: int|
            0 <= i < data.len() && !(offset <= i < offset + bytes.len()) ==> #[trigger] overwritten(
                data,
                offset,
                bytes,
            )[i] == data[i],
{
    assert(overwritten(data, offset, bytes).subrange(offset, offset + bytes.len()) =~= bytes);
}

/// A position to seek to.
#[derive(Debug, Clone, Copy, PartialEq, Eq, Structural)]
pub enum SeekPosition {
    /// From the start.
    Start(u64),
    /// From the end.
    End(i64),
    /// From the current position.
    Current(i64),
}

/// The position that a seek asks for.
pub open spec fn seek_target(len: nat, at: int, pos: SeekPosition) -> int {
    match pos {
        SeekPosition::Start(offset) => offset as int,
        SeekPosition::End(offset) => len + offset,
        SeekPosition::Current(offset) => at + offset,
    }
}

/// Adds a signed offset to a position.
fn checked_add_i64(base: usize, offset: i64) -> (r: Option<usize>)
    ensures
        match r {
            Some(v) => v == base + offset,
            None => base + offset < 0 || base + offset > usize::MAX,
        },
{
    let sum: i128 = base as i128 + offset as i128;
    if sum < 0 || sum > usize::MAX as i128 {
        None
    } else {
        Some(sum as usize)
    }
}

/// Why a seek was refused.
#[derive(Debug, Clone, Copy, PartialEq, Eq, Structural)]
pub enum SeekError {
    /// The position is no position at all.
    Invalid,
    /// The position lies behind the end of the buffer.
    BeyondEnd,
}

impl SeekError {
    /// The text of a refused seek.
    pub open spec fn text(self) -> Seq<char> {
        match self {
            SeekError::Invalid => "invalid seek position"@,
            SeekError::BeyondEnd => "invalid seek to a position beyond the end of the buffer"@,
        }
    }

    /// The refusal as text.
    pub fn message(self) -> (r: &'static str)
        ensures
            r@ == self.text(),
    {
        match self {
            SeekError::Invalid => "invalid seek position",
            SeekError::BeyondEnd => "invalid seek to a position beyond the end of the buffer",
        }
    }
}

/// A position in a buffer for sequential access.
#[derive(Debug, Clone, Copy, PartialEq, Eq, Structural)]
pub struct BufferCursor {
    pub position: usize,
}

impl Buffer {
    /// A cursor at the start of the buffer.
    pub fn cursor(&self) -> (r: BufferCursor)
        ensures
            r.position == 0,
    {
        BufferCursor { position: 0 }
    }
}

impl BufferCursor {
    /// Reads up to `count` bytes at the cursor and moves it behind them.
    pub fn read(&mut self, buffer: &Buffer, count: usize) -> (r: Vec<u8>)
        requires
            old(self).position <= buffer@.len(),
        ensures
            ({
                let n = if count <= buffer@.len() - old(self).position {
                    count as int
                } else {
                    buffer@.len() - old(self).position
                };
                &&& r@ == buffer@.subrange(
                    old(self).position as int,
                    old(self).position + n,
                )
                &&& final(self).position == old(self).position + n
            }),
    {
        let rest: usize = buffer.len() - self.position;
        let n: usize = if count <= rest {
            count
        } else {
            rest
        };
        let out = buffer.read_bytes(self.position, n);
        self.position = self.position + n;
        out
    }

    /// Writes as many bytes as fit at the cursor, moves it behind them and
    /// returns their number.
    pub fn write(&mut self, buffer: &mut Buffer, bytes: &[u8]) -> (r: usize)
        requires
            old(self).position <= old(buffer)@.len(),
        ensures
            r == (if bytes@.len() <= old(buffer)@.len() - old(self).position {
                bytes@.len() as int
            } else {
                old(buffer)@.len() - old(self).position
            }),
            final(self).position == old(self).position + r,
            final(buffer)@ == overwritten(
                old(buffer)@,
                old(self).position as int,
                bytes@.take(r as int),
            ),
    {
        let rest: usize = buffer.len() - self.position;
        let n: usize = if bytes.len() <= rest {
            bytes.len()
        } else {
            rest
        };
        let head = vstd::slice::slice_subrange(bytes, 0, n);
        assert(head@ =~= bytes@.take(n as int));
        buffer.write_bytes(self.position, head);
        self.position = self.position + n;
        n
    }

    /// Moves the cursor, but never behind the end of the buffer.
    pub fn seek(&mut self, buffer: &Buffer, pos: SeekPosition) -> (r: Result<u64, SeekError>)
        requires
            old(self).position <= buffer@.len(),
        ensures
            ({
                let target = seek_target(buffer@.len(), old(self).position as int, pos);
                match r {
                    Ok(at) => 0 <= target <= buffer@.len() && at == target && final(self).position
                        == target,
                    Err(SeekError::Invalid) => (target < 0 || target > usize::MAX)
                        && *final(self) == *old(self),
                    Err(SeekError::BeyondEnd) => buffer@.len() < target <= usize::MAX
                        && *final(self) == *old(self),
                }
            }),
    {
        let target: Option<usize> = match pos {
            SeekPosition::Start(offset) => {
                if offset > usize::MAX as u64 {
                    None
                } else {
                    Some(offset as usize)
                }
            },
            SeekPosition::End(offset) => checked_add_i64(buffer.len(), offset),
            SeekPosition::Current(offset) => checked_add_i64(self.position, offset),
        };
        match target {
            None => Err(SeekError::Invalid),
            Some(at) => {
                if at > buffer.len() {
                    return Err(SeekError::BeyondEnd);
                }
                self.position = at;
                Ok(at as u64)
            },
        }
    }
}

} // verus!
