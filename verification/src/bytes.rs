//! Fixed width integers inside byte sequences.

use vstd::prelude::*;

verus! {

/// The big endian number held by two bytes.
pub open spec fn be16(high: u8, low: u8) -> nat {
    (high as nat) * 256 + (low as nat)
}

/// The unsigned little endian number held by the four bytes of `data` at `offset`.
pub open spec fn le32_at(data: Seq<u8>, offset: int) -> int {
    data[offset] + 0x100 * data[offset + 1] + 0x1_0000 * data[offset + 2] + 0x100_0000 * data[offset
        + 3]
}

/// The unsigned little endian number held by the eight bytes of `data` at `offset`.
pub open spec fn le64_at(data: Seq<u8>, offset: int) -> int {
    le32_at(data, offset) + 0x1_0000_0000 * le32_at(data, offset + 4)
}

/// The four bytes of `value`, lowest first.
pub open spec fn le32_bytes(value: u32) -> Seq<u8> {
    seq![
        (value % 0x100) as u8,
        (value / 0x100 % 0x100) as u8,
        (value / 0x1_0000 % 0x100) as u8,
        (value / 0x100_0000) as u8,
    ]
}

/// The eight bytes of `value`, lowest first.
pub open spec fn le64_bytes(value: u64) -> Seq<u8> {
    le32_bytes((value % 0x1_0000_0000) as u32) + le32_bytes((value / 0x1_0000_0000) as u32)
}

/// The unsigned big endian number held by the four bytes of `data` at `offset`.
pub open spec fn be32_at(data: Seq<u8>, offset: int) -> int {
    0x100_0000 * data[offset] + 0x1_0000 * data[offset + 1] + 0x100 * data[offset + 2] + data[offset
        + 3]
}

/// The unsigned big endian number held by the eight bytes of `data` at `offset`.
pub open spec fn be64_at(data: Seq<u8>, offset: int) -> int {
    0x1_0000_0000 * be32_at(data, offset) + be32_at(data, offset + 4)
}

/// The four bytes of `value`, highest first.
pub open spec fn be32_bytes(value: u32) -> Seq<u8> {
    seq![
        (value / 0x100_0000) as u8,
        (value / 0x1_0000 % 0x100) as u8,
        (value / 0x100 % 0x100) as u8,
        (value % 0x100) as u8,
    ]
}

/// The eight bytes of `value`, highest first.
pub open spec fn be64_bytes(value: u64) -> Seq<u8> {
    be32_bytes((value / 0x1_0000_0000) as u32) + be32_bytes((value % 0x1_0000_0000) as u32)
}

/// The signed number whose two's complement form is `unsigned`.
pub open spec fn signed64(unsigned: int) -> int {
    if unsigned < 0x8000_0000_0000_0000 {
        unsigned
    } else {
        unsigned - 0x1_0000_0000_0000_0000
    }
}

/// The two's complement form of `value`.
pub open spec fn unsigned64(value: i64) -> u64 {
    if value >= 0 {
        value as u64
    } else {
        (value + 0x1_0000_0000_0000_0000) as u64
    }
}

/// `data` with `bytes` written over it from `offset` on.
pub open spec fn overwrite(data: Seq<u8>, offset: int, bytes: Seq<u8>) -> Seq<u8> {
    Seq::new(
        data.len(),
        |k: int|
            if offset <= k < offset + bytes.len() {
                bytes[k - offset]
            } else {
                data[k]
            },
    )
}

/// `data` cut, or filled up with zero bytes, to `size` bytes.
pub open spec fn fitted(data: Seq<u8>, size: nat) -> Seq<u8> {
    Seq::new(
        size,
        |k: int|
            if k < data.len() {
                data[k]
            } else {
                0u8
            },
    )
}

/// Four bytes of a number read back as that number.
pub proof fn lemma_le32_round_trip(data: Seq<u8>, offset: int, value: u32)
    requires
        forall|k: int| 0 <= k < 4 ==> data[offset + k] == #[trigger] le32_bytes(value)[k],
    ensures
        le32_at(data, offset) == value,
{
    let b = le32_bytes(value);
    assert(data[offset + 0] == b[0]);
    assert(data[offset + 1] == b[1]);
    assert(data[offset + 2] == b[2]);
    assert(data[offset + 3] == b[3]);
}

/// Eight bytes of a number read back as that number.
pub proof fn lemma_le64_round_trip(data: Seq<u8>, offset: int, value: u64)
    requires
        forall|k: int| 0 <= k < 8 ==> data[offset + k] == #[trigger] le64_bytes(value)[k],
    ensures
        le64_at(data, offset) == value,
{
    let low = (value % 0x1_0000_0000) as u32;
    let high = (value / 0x1_0000_0000) as u32;
    assert forall|k: int| 0 <= k < 4 implies data[offset + k] == #[trigger] le32_bytes(low)[k] by {
        assert(le64_bytes(value)[k] == le32_bytes(low)[k]);
    }
    assert forall|k: int| 0 <= k < 4 implies data[offset + 4 + k] == #[trigger] le32_bytes(
        high,
    )[k] by {
        assert(le64_bytes(value)[k + 4] == le32_bytes(high)[k]);
        assert(data[offset + (k + 4)] == le64_bytes(value)[k + 4]);
    }
    lemma_le32_round_trip(data, offset, low);
    lemma_le32_round_trip(data, offset + 4, high);
}

/// Four bytes of a number, highest first, read back as that number.
pub proof fn lemma_be32_round_trip(data: Seq<u8>, offset: int, value: u32)
    requires
        forall|k: int| 0 <= k < 4 ==> data[offset + k] == #[trigger] be32_bytes(value)[k],
    ensures
        be32_at(data, offset) == value,
{
    let b = be32_bytes(value);
    assert(data[offset + 0] == b[0]);
    assert(data[offset + 1] == b[1]);
    assert(data[offset + 2] == b[2]);
    assert(data[offset + 3] == b[3]);
}

/// Eight bytes of a number, highest first, read back as that number.
pub proof fn lemma_be64_round_trip(data: Seq<u8>, offset: int, value: u64)
    requires
        forall|k: int| 0 <= k < 8 ==> data[offset + k] == #[trigger] be64_bytes(value)[k],
    ensures
        be64_at(data, offset) == value,
{
    let low = (value % 0x1_0000_0000) as u32;
    let high = (value / 0x1_0000_0000) as u32;
    assert forall|k: int| 0 <= k < 4 implies data[offset + k] == #[trigger] be32_bytes(high)[k] by {
        assert(be64_bytes(value)[k] == be32_bytes(high)[k]);
    }
    assert forall|k: int| 0 <= k < 4 implies data[offset + 4 + k] == #[trigger] be32_bytes(
        low,
    )[k] by {
        assert(be64_bytes(value)[k + 4] == be32_bytes(low)[k]);
        assert(data[offset + (k + 4)] == be64_bytes(value)[k + 4]);
    }
    lemma_be32_round_trip(data, offset, high);
    lemma_be32_round_trip(data, offset + 4, low);
}

/// Taking the two's complement form and reading it as signed gives the number back.
pub proof fn lemma_signed_round_trip(value: i64)
    ensures
        signed64(unsigned64(value) as int) == value,
{
}

pub fn read_be32(data: &Vec<u8>, offset: usize) -> (r: u32)
    requires
        offset + 4 <= data.len(),
    ensures
        r == be32_at(data@, offset as int),
{
    0x100_0000 * (data[offset] as u32) + 0x1_0000 * (data[offset + 1] as u32) + 0x100 * (data[offset
        + 2] as u32) + data[offset + 3] as u32
}

pub fn read_be64(data: &Vec<u8>, offset: usize) -> (r: u64)
    requires
        offset + 8 <= data.len(),
    ensures
        r == be64_at(data@, offset as int),
{
    0x1_0000_0000 * (read_be32(data, offset) as u64) + read_be32(data, offset + 4) as u64
}

pub fn write_be32(data: &mut Vec<u8>, offset: usize, value: u32)
    requires
        offset + 4 <= old(data).len(),
    ensures
        final(data)@ == overwrite(old(data)@, offset as int, be32_bytes(value)),
{
    data.set(offset, (value / 0x100_0000) as u8);
    data.set(offset + 1, (value / 0x1_0000 % 0x100) as u8);
    data.set(offset + 2, (value / 0x100 % 0x100) as u8);
    data.set(offset + 3, (value % 0x100) as u8);
    assert(data@ =~= overwrite(old(data)@, offset as int, be32_bytes(value)));
}

pub fn write_be64(data: &mut Vec<u8>, offset: usize, value: u64)
    requires
        offset + 8 <= old(data).len(),
    ensures
        final(data)@ == overwrite(old(data)@, offset as int, be64_bytes(value)),
{
    write_be32(data, offset, (value / 0x1_0000_0000) as u32);
    write_be32(data, offset + 4, (value % 0x1_0000_0000) as u32);
    assert(data@ =~= overwrite(old(data)@, offset as int, be64_bytes(value)));
}

pub fn write_le32(data: &mut Vec<u8>, offset: usize, value: u32)
    requires
        offset + 4 <= old(data).len(),
    ensures
        final(data)@ == overwrite(old(data)@, offset as int, le32_bytes(value)),
{
    data.set(offset, (value % 0x100) as u8);
    data.set(offset + 1, (value / 0x100 % 0x100) as u8);
    data.set(offset + 2, (value / 0x1_0000 % 0x100) as u8);
    data.set(offset + 3, (value / 0x100_0000) as u8);
    assert(data@ =~= overwrite(old(data)@, offset as int, le32_bytes(value)));
}

pub fn write_le64(data: &mut Vec<u8>, offset: usize, value: u64)
    requires
        offset + 8 <= old(data).len(),
    ensures
        final(data)@ == overwrite(old(data)@, offset as int, le64_bytes(value)),
{
    write_le32(data, offset, (value % 0x1_0000_0000) as u32);
    write_le32(data, offset + 4, (value / 0x1_0000_0000) as u32);
    assert(data@ =~= overwrite(old(data)@, offset as int, le64_bytes(value)));
}

pub fn to_unsigned64(value: i64) -> (r: u64)
    ensures
        r == unsigned64(value),
{
    if value >= 0 {
        value as u64
    } else {
        u64::MAX - ((-(value + 1)) as u64)
    }
}

pub fn to_signed64(unsigned: u64) -> (r: i64)
    ensures
        r == signed64(unsigned as int),
{
    if unsigned < 0x8000_0000_0000_0000 {
        unsigned as i64
    } else {
        -((u64::MAX - unsigned) as i64) - 1
    }
}

/// A copy of `data` cut, or filled up with zero bytes, to `size` bytes.
pub fn fit(data: &Vec<u8>, size: usize) -> (r: Vec<u8>)
    ensures
        r@ == fitted(data@, size as nat),
{
    let mut out: Vec<u8> = Vec::new();
    let mut k: usize = 0;
    while k < size
        invariant
            k <= size,
            out@ == fitted(data@, k as nat),
        decreases size - k,
    {
        if k < data.len() {
            out.push(data[k]);
        } else {
            out.push(0);
        }
        k = k + 1;
        assert(out@ =~= fitted(data@, k as nat));
    }
    out
}

/// A copy of `data`.
pub fn copy_bytes(data: &Vec<u8>) -> (r: Vec<u8>)
    ensures
        r@ == data@,
{
    let r: Vec<u8> = fit(data, data.len());
    assert(r@ =~= data@);
    r
}

} // verus!
