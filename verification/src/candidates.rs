//! Parsing the candidate-list record. The platform fills a raw buffer with
//! a fixed-layout record: a count field, then `count` offsets (relative to
//! the record start) to null-terminated UTF-16 strings stored later in the
//! same buffer. Counts and offsets are untrusted data: everything is bounds
//! checked against the buffer before it is read, and a record that points
//! outside itself, or whose strings lack a terminator, yields nothing.

use crate::buffer::{le_u16_at, le_u32_at, read_u16_le, read_u32_le};
use crate::utf16::{decode_lossy, decoded_lossy};
use vstd::prelude::*;

verus! {

/// Number of candidates the record claims to hold: the 32-bit count field
/// at byte offset 8, after the record's size and style fields.
pub open spec fn cand_count(buf: Seq<u8>) -> int
    recommends
        buf.len() >= 12,
{
    le_u32_at(buf, 8)
}

/// The offset-table entry of candidate `i`: the table of 32-bit offsets
/// starts at byte 24, after the record's six header fields.
pub open spec fn cand_offset(buf: Seq<u8>, i: int) -> int {
    le_u32_at(buf, 24 + 4 * i)
}

/// The code units of the null-terminated UTF-16 string starting at byte
/// `pos`, or `None` when no terminating null unit lies within the buffer.
pub open spec fn units_to_nul(buf: Seq<u8>, pos: int) -> Option<Seq<u16>>
    decreases buf.len() - pos,
{
    if pos < 0 || pos + 2 > buf.len() {
        None
    } else if le_u16_at(buf, pos) == 0 {
        Some(Seq::empty())
    } else {
        match units_to_nul(buf, pos + 2) {
            Some(rest) => Some(seq![le_u16_at(buf, pos) as u16] + rest),
            None => None,
        }
    }
}

/// True when the record is internally consistent: the header and the whole
/// offset table lie within the buffer, and every offset leads to a string
/// with a terminating null inside the buffer.
pub open spec fn candidates_wellformed(buf: Seq<u8>) -> bool {
    &&& buf.len() >= 24
    &&& 24 + 4 * cand_count(buf) <= buf.len()
    &&& forall|i: int|
        0 <= i < cand_count(buf) ==> units_to_nul(buf, cand_offset(buf, i)) is Some
}

/// The decoded candidates, in record order, each decoded lossily.
pub open spec fn spec_candidates(buf: Seq<u8>) -> Seq<Seq<char>>
    recommends
        candidates_wellformed(buf),
{
    Seq::new(
        cand_count(buf) as nat,
        |i: int| decoded_lossy(units_to_nul(buf, cand_offset(buf, i)).unwrap()),
    )
}

/// Collects the code units from `pos` forward until the terminating null,
/// with the scan capped at the end of the buffer.
fn scan_units(buf: &Vec<u8>, pos: usize) -> (r: Option<Vec<u16>>)
    ensures
        r is Some <==> units_to_nul(buf@, pos as int) is Some,
        r matches Some(v) ==> units_to_nul(buf@, pos as int) == Some(v@),
{
    let n = buf.len();
    if pos > n {
        return None;
    }
    let mut units: Vec<u16> = Vec::new();
    let mut p = pos;
    proof {
        assert(units@ + units_to_nul(buf@, p as int).unwrap() =~= units_to_nul(
            buf@,
            p as int,
        ).unwrap());
    }
    while n - p >= 2
        invariant
            n == buf@.len(),
            pos <= p <= n,
            units_to_nul(buf@, pos as int) is Some <==> units_to_nul(buf@, p as int) is Some,
            units_to_nul(buf@, p as int) is Some ==> units_to_nul(buf@, pos as int).unwrap()
                == units@ + units_to_nul(buf@, p as int).unwrap(),
        decreases n - p,
    {
        let u = read_u16_le(buf, p);
        if u == 0 {
            proof {
                assert(units_to_nul(buf@, p as int) == Some(Seq::<u16>::empty()));
                assert(units@ + Seq::<u16>::empty() =~= units@);
            }
            return Some(units);
        }
        proof {
            assert(units_to_nul(buf@, p as int) matches Some(w) ==> w == seq![u] + units_to_nul(
                buf@,
                p + 2,
            ).unwrap());
            if units_to_nul(buf@, p + 2) is Some {
                assert(units@ + (seq![u] + units_to_nul(buf@, p + 2).unwrap()) =~= units@.push(u)
                    + units_to_nul(buf@, p + 2).unwrap());
            }
        }
        units.push(u);
        p = p + 2;
    }
    None
}

/// Performs the validated parse of a filled candidate-list buffer: reads the
/// count, bounds-checks the offset table, and decodes each candidate string
/// lossily (one ill-formed candidate must not hide the others), preserving
/// record order. Yields nothing when any count or offset reaches outside
/// the buffer, or any candidate lacks a terminator.
pub fn parse_candidate_list(buf: &Vec<u8>) -> (r: Option<Vec<String>>)
    ensures
        r is Some <==> candidates_wellformed(buf@),
        r matches Some(v) ==> {
            &&& v@.len() == cand_count(buf@)
            &&& forall|i: int| 0 <= i < v@.len() ==> v@[i]@ == spec_candidates(buf@)[i]
        },
{
    if buf.len() < 24 {
        return None;
    }
    let count_raw = read_u32_le(buf, 8);
    if 24u64 + 4u64 * (count_raw as u64) > buf.len() as u64 {
        return None;
    }
    let count = count_raw as usize;
    let mut out: Vec<String> = Vec::new();
    let mut i: usize = 0;
    while i < count
        invariant
            buf@.len() >= 24,
            buf@.len() <= usize::MAX,
            count == cand_count(buf@),
            24 + 4 * count <= buf@.len(),
            i <= count,
            out@.len() == i,
            forall|j: int| 0 <= j < i ==> units_to_nul(buf@, cand_offset(buf@, j)) is Some,
            forall|j: int|
                0 <= j < i ==> out@[j]@ == decoded_lossy(
                    units_to_nul(buf@, cand_offset(buf@, j)).unwrap(),
                ),
        decreases count - i,
    {
        let off = read_u32_le(buf, 24 + 4 * i);
        proof {
            assert(off as int == cand_offset(buf@, i as int));
        }
        match scan_units(buf, off as usize) {
            None => {
                proof {
                    assert(0 <= (i as int) < cand_count(buf@) && units_to_nul(
                        buf@,
                        cand_offset(buf@, i as int),
                    ) is None);
                }
                return None;
            },
            Some(units) => {
                let s = decode_lossy(&units);
                out.push(s);
            },
        }
        i = i + 1;
    }
    proof {
        assert(candidates_wellformed(buf@));
        assert forall|j: int| 0 <= j < out@.len() implies out@[j]@ == spec_candidates(buf@)[j] by {
            assert(out@[j]@ == decoded_lossy(units_to_nul(buf@, cand_offset(buf@, j)).unwrap()));
        }
    }
    Some(out)
}

} // verus!
