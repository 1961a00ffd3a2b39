use crate::error::GxtError;
use vstd::prelude::*;
use vstd::slice::slice_subrange;

verus! {

/// The unsigned little-endian value of four bytes.
pub open spec fn le_u32(b0: u8, b1: u8, b2: u8, b3: u8) -> u32 {
    (b0 as int + 0x100 * b1 + 0x1_0000 * b2 + 0x100_0000 * b3) as u32
}

/// The four little-endian bytes of `v`.
pub open spec fn le_bytes(v: u32) -> Seq<u8> {
    seq![
        (v % 0x100) as u8,
        (v / 0x100 % 0x100) as u8,
        (v / 0x1_0000 % 0x100) as u8,
        (v / 0x100_0000) as u8,
    ]
}

/// The little-endian value of the four bytes of `b` at `p`.
pub open spec fn u32_at(b: Seq<u8>, p: int) -> u32 {
    le_u32(b[p], b[p + 1], b[p + 2], b[p + 3])
}

/// Reading back the four little-endian bytes of a value gives the value.
pub proof fn lemma_le_bytes_round_trip(v: u32)
    ensures
        le_bytes(v).len() == 4,
        u32_at(le_bytes(v), 0) == v,
{
}

/// Reads the next `n` bytes of `bytes` at `*cur` and advances `*cur` past them.
pub fn read_bytes<'a>(bytes: &'a [u8], cur: &mut usize, n: usize) -> (r: Result<&'a [u8], GxtError>)
    ensures
        match r {
            Ok(s) => {
                &&& *old(cur) + n <= bytes@.len()
                &&& s@ == bytes@.subrange(*old(cur) as int, *old(cur) + n)
                &&& *final(cur) == *old(cur) + n
            },
            Err(e) => {
                &&& *old(cur) + n > bytes@.len()
                &&& e == GxtError::UnexpectedEndOfData
                &&& *final(cur) == *old(cur)
            },
        },
{
    if n > bytes.len() || *cur > bytes.len() - n {
        return Err(GxtError::UnexpectedEndOfData);
    }
    let s = slice_subrange(bytes, *cur, *cur + n);
    *cur = *cur + n;
    Ok(s)
}

/// Reads a little-endian `u32` at `*cur` and advances `*cur` past it.
pub fn read_u32_le(bytes: &[u8], cur: &mut usize) -> (r: Result<u32, GxtError>)
    ensures
        match r {
            Ok(v) => {
                &&& *old(cur) + 4 <= bytes@.len()
                &&& v == u32_at(bytes@, *old(cur) as int)
                &&& *final(cur) == *old(cur) + 4
            },
            Err(e) => {
                &&& *old(cur) + 4 > bytes@.len()
                &&& e == GxtError::UnexpectedEndOfData
                &&& *final(cur) == *old(cur)
            },
        },
{
    let b = read_bytes(bytes, cur, 4)?;
    Ok(b[0] as u32 + 0x100 * (b[1] as u32) + 0x1_0000 * (b[2] as u32) + 0x100_0000 * (b[3] as u32))
}

/// Reads a four-byte tag at `*cur`, advances `*cur` past it, and checks that it is `magic`.
pub fn require_magic(bytes: &[u8], cur: &mut usize, magic: &[u8; 4]) -> (r: Result<(), GxtError>)
    ensures
        *old(cur) + 4 <= bytes@.len() ==> *final(cur) == *old(cur) + 4,
        r is Ok <==> {
            &&& *old(cur) + 4 <= bytes@.len()
            &&& bytes@.subrange(*old(cur) as int, *old(cur) + 4) == magic@
        },
        *old(cur) + 4 > bytes@.len() ==> r == Err::<(), GxtError>(GxtError::UnexpectedEndOfData),
        *old(cur) + 4 <= bytes@.len() && r is Err ==> r == Err::<(), GxtError>(
            GxtError::MagicMismatch {
                at: *old(cur),
                expected: *magic,
                found: [
                    bytes@[*old(cur) as int],
                    bytes@[*old(cur) + 1],
                    bytes@[*old(cur) + 2],
                    bytes@[*old(cur) + 3],
                ],
            },
        ),
{
    let start = *cur;
    let got = read_bytes(bytes, cur, 4)?;
    if got[0] != magic[0] || got[1] != magic[1] || got[2] != magic[2] || got[3] != magic[3] {
        assert(got@ != magic@);
        return Err(GxtError::MagicMismatch { at: start, expected: *magic, found: [got[0], got[1], got[2], got[3]] });
    }
    assert(got@ =~= magic@);
    Ok(())
}

} // verus!
