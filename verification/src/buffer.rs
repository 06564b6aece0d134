//! Little-endian views into the raw byte buffers that the platform's
//! query protocol fills: 16-bit code units and 32-bit record fields.

use vstd::prelude::*;

verus! {

/// The 16-bit little-endian value stored at `pos`.
pub open spec fn le_u16_at(buf: Seq<u8>, pos: int) -> int
    recommends
        0 <= pos,
        pos + 2 <= buf.len(),
{
    buf[pos] + 0x100 * buf[pos + 1]
}

/// The 32-bit little-endian value stored at `pos`.
pub open spec fn le_u32_at(buf: Seq<u8>, pos: int) -> int
    recommends
        0 <= pos,
        pos + 4 <= buf.len(),
{
    buf[pos] + 0x100 * buf[pos + 1] + 0x10000 * buf[pos + 2] + 0x1000000 * buf[pos + 3]
}

/// The UTF-16 code units stored in `bytes`, two bytes each, little endian.
pub open spec fn units_of(bytes: Seq<u8>) -> Seq<u16>
    recommends
        bytes.len() % 2 == 0,
{
    Seq::new((bytes.len() / 2) as nat, |i: int| le_u16_at(bytes, 2 * i) as u16)
}

pub fn read_u16_le(buf: &Vec<u8>, pos: usize) -> (r: u16)
    requires
        pos + 2 <= buf@.len(),
    ensures
        r as int == le_u16_at(buf@, pos as int),
{
    let n = buf.len();
    proof {
        assert(pos + 2 <= n);
    }
    let b0 = buf[pos];
    let b1 = buf[pos + 1];
    b0 as u16 + b1 as u16 * 0x100
}

pub fn read_u32_le(buf: &Vec<u8>, pos: usize) -> (r: u32)
    requires
        pos + 4 <= buf@.len(),
    ensures
        r as int == le_u32_at(buf@, pos as int),
{
    let n = buf.len();
    proof {
        assert(pos + 4 <= n);
    }
    let b0 = buf[pos];
    let b1 = buf[pos + 1];
    let b2 = buf[pos + 2];
    let b3 = buf[pos + 3];
    b0 as u32 + b1 as u32 * 0x100 + b2 as u32 * 0x10000 + b3 as u32 * 0x1000000
}

/// Regroups a raw byte buffer into whole UTF-16 code units; a buffer whose
/// length is not evenly divisible into units is misaligned data and yields
/// nothing.
pub fn bytes_to_units(bytes: &Vec<u8>) -> (r: Option<Vec<u16>>)
    ensures
        r is Some <==> bytes@.len() % 2 == 0,
        r matches Some(v) ==> v@ == units_of(bytes@),
{
    if bytes.len() % 2 != 0 {
        return None;
    }
    let n = bytes.len() / 2;
    let mut v: Vec<u16> = Vec::new();
    let mut i: usize = 0;
    while i < n
        invariant
            n == bytes@.len() / 2,
            2 * (n as int) == bytes@.len(),
            bytes@.len() <= usize::MAX,
            bytes@.len() % 2 == 0,
            i <= n,
            v@.len() == i,
            forall|j: int| 0 <= j < i ==> v@[j] as int == le_u16_at(bytes@, 2 * j),
        decreases n - i,
    {
        let u = read_u16_le(bytes, 2 * i);
        v.push(u);
        i = i + 1;
    }
    proof {
        assert(v@ =~= units_of(bytes@));
    }
    Some(v)
}

} // verus!
