//! Per-query decisions of the composition session: classifying the two
//! halves of the size-probe-then-fill protocol, interpreting raw query
//! buffers as composition text, and the window-level IME toggles that are
//! silent no-ops when the platform has no IME support at all.

use crate::buffer::{bytes_to_units, units_of};
use crate::utf16::{decode_strict, decoded_lossy, wellformed};
use vstd::prelude::*;
use vstd::string::StrSliceExecFns;

verus! {

/// Outcome of the probe half of the size-then-fill protocol: a negative
/// reported size means the query itself failed, exactly zero means there is
/// no data (but no error), and a positive size asks for a buffer of exactly
/// that size to be filled.
#[derive(Clone, Copy, Debug, PartialEq, Eq, Structural)]
pub enum SizeProbe {
    Failed,
    Empty,
    Fill(u32),
}

pub fn classify_size_probe(size: i32) -> (r: SizeProbe)
    ensures
        size < 0 <==> r is Failed,
        size == 0 <==> r is Empty,
        size > 0 ==> r == SizeProbe::Fill(size as u32),
{
    if size < 0 {
        SizeProbe::Failed
    } else if size == 0 {
        SizeProbe::Empty
    } else {
        SizeProbe::Fill(size as u32)
    }
}

/// Accepts or rejects the fill half of the protocol: a negative reported
/// size means the buffer contents are not trustworthy and must not be
/// exposed; otherwise the first `reported` bytes of the filled buffer are
/// the query's data.
pub fn accept_fill(reported: i32, buf: Vec<u8>) -> (r: Option<Vec<u8>>)
    ensures
        r is Some <==> reported >= 0,
        r matches Some(v) ==> v@ == (if reported as int <= buf@.len() {
            buf@.subrange(0, reported as int)
        } else {
            buf@
        }),
{
    if reported < 0 {
        return None;
    }
    let mut data = buf;
    data.truncate(reported as usize);
    Some(data)
}

/// Interprets a raw query buffer as the composition string: the bytes are
/// regrouped into UTF-16 code units and decoded strictly. A buffer that does
/// not divide into whole units, or that holds ill-formed UTF-16, has no safe
/// interpretation and yields nothing.
pub open spec fn spec_composition_text(data: Seq<u8>) -> Option<Seq<char>> {
    if data.len() % 2 == 0 && wellformed(units_of(data)) {
        Some(decoded_lossy(units_of(data)))
    } else {
        None
    }
}

pub fn composition_text(data: &Vec<u8>) -> (r: Option<String>)
    ensures
        r is Some <==> spec_composition_text(data@) is Some,
        r matches Some(s) ==> spec_composition_text(data@) == Some(s@),
{
    match bytes_to_units(data) {
        None => None,
        Some(units) => decode_strict(&units),
    }
}

/// The committed (finalized) composition result: decoded like the in-progress
/// composition string, but an empty result stands for "nothing committed" and
/// is absence, not an empty string.
pub fn composed_text(data: &Vec<u8>) -> (r: Option<String>)
    ensures
        r is Some <==> (spec_composition_text(data@) matches Some(t) && t.len() > 0),
        r matches Some(s) ==> spec_composition_text(data@) == Some(s@) && s@.len() > 0,
{
    match composition_text(data) {
        None => None,
        Some(s) => {
            if s.as_str().is_empty() {
                None
            } else {
                Some(s)
            }
        },
    }
}

/// How a window is associated with the IME when composition is toggled: the
/// system default context (enabling composition) or the disabled state
/// propagated down to child windows.
#[derive(Clone, Copy, Debug, PartialEq, Eq, Structural)]
pub enum Association {
    SystemDefault,
    DisabledChildren,
}

/// Decides the window-association action of the IME-allowed toggle: without
/// platform IME support the toggle is a silent no-op; otherwise allowing
/// composition selects the system default context, and disallowing it
/// propagates the disabled state to child windows.
pub fn association_action(system_has_ime: bool, allowed: bool) -> (r: Option<Association>)
    ensures
        r is Some <==> system_has_ime,
        system_has_ime ==> r == Some(
            if allowed {
                Association::SystemDefault
            } else {
                Association::DisabledChildren
            },
        ),
{
    if system_has_ime {
        if allowed {
            Some(Association::SystemDefault)
        } else {
            Some(Association::DisabledChildren)
        }
    } else {
        None
    }
}

/// Style tag of a candidate-window placement request: the candidate UI is
/// asked to avoid (exclude) the given point.
pub const CFS_EXCLUDE: u32 = 128;

/// A candidate-window placement request: the candidate UI is anchored away
/// from the given physical position, with no bounding-rectangle constraint.
#[derive(Clone, Copy, Debug, PartialEq, Eq, Structural)]
pub struct CandidatePlacement {
    pub index: u32,
    pub style: u32,
    pub x: i32,
    pub y: i32,
}

/// Decides the candidate-window placement for a physical position: without
/// platform IME support this is a silent no-op; otherwise a single exclude
/// request at exactly that position.
pub fn candidate_placement(system_has_ime: bool, x: i32, y: i32) -> (r: Option<CandidatePlacement>)
    ensures
        r is Some <==> system_has_ime,
        system_has_ime ==> r == Some(
            (CandidatePlacement { index: 0, style: CFS_EXCLUDE, x: x, y: y }),
        ),
{
    if system_has_ime {
        Some(CandidatePlacement { index: 0, style: CFS_EXCLUDE, x: x, y: y })
    } else {
        None
    }
}

} // verus!
