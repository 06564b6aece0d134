//! A model of UTF-16, and verified decoders for the two policies the
//! composition protocol needs: strict decoding (any ill-formed unit
//! invalidates the whole result) and lossy decoding (each ill-formed unit
//! becomes the replacement character).

use vstd::prelude::*;

verus! {

/// The Unicode replacement character, substituted for each ill-formed
/// unit by lossy decoding.
pub const REPLACEMENT_CHARACTER: char = '\u{FFFD}';

/// True when `u` is a high (leading) surrogate code unit.
pub open spec fn is_high_surrogate(u: u16) -> bool {
    0xD800 <= u && u <= 0xDBFF
}

/// True when `u` is a low (trailing) surrogate code unit.
pub open spec fn is_low_surrogate(u: u16) -> bool {
    0xDC00 <= u && u <= 0xDFFF
}

/// True when `u` is any surrogate code unit.
pub open spec fn is_surrogate(u: u16) -> bool {
    0xD800 <= u && u <= 0xDFFF
}

/// The scalar value encoded by a surrogate pair.
pub open spec fn combined_scalar(hi: u16, lo: u16) -> u32
    recommends
        is_high_surrogate(hi),
        is_low_surrogate(lo),
{
    (0x10000 + (hi - 0xD800) * 0x400 + (lo - 0xDC00)) as u32
}

/// True when a surrogate pair starts at the front of `units`.
pub open spec fn starts_with_pair(units: Seq<u16>) -> bool {
    units.len() >= 2 && is_high_surrogate(units[0]) && is_low_surrogate(units[1])
}

/// True when `units` is well-formed UTF-16: every surrogate is part of a
/// high-low pair.
pub open spec fn wellformed(units: Seq<u16>) -> bool
    decreases units.len(),
{
    if units.len() == 0 {
        true
    } else if !is_surrogate(units[0]) {
        wellformed(units.drop_first())
    } else if starts_with_pair(units) {
        wellformed(units.skip(2))
    } else {
        false
    }
}

/// The characters denoted by `units` under lossy decoding: a non-surrogate
/// unit stands for itself, a high-low pair for its combined scalar, and any
/// other surrogate for the replacement character. On well-formed input this
/// is also what strict decoding yields.
pub open spec fn decoded_lossy(units: Seq<u16>) -> Seq<char>
    decreases units.len(),
{
    if units.len() == 0 {
        Seq::empty()
    } else if !is_surrogate(units[0]) {
        seq![units[0] as char] + decoded_lossy(units.drop_first())
    } else if starts_with_pair(units) {
        seq![combined_scalar(units[0], units[1]) as char] + decoded_lossy(units.skip(2))
    } else {
        seq![REPLACEMENT_CHARACTER] + decoded_lossy(units.drop_first())
    }
}

/// Relies on `char::from_u32`: returns `Some` exactly for Unicode scalar
/// values, and then the `char` with that value.
#[verifier::external_body]
fn char_from_u32(x: u32) -> (c: char)
    requires
        x <= 0x10FFFF,
        !(0xD800 <= x && x <= 0xDFFF),
    ensures
        c == (x as char),
{
    char::from_u32(x).unwrap()
}

/// Relies on `String::push`: appends the given character to the end of
/// the string.
#[verifier::external_body]
fn push_char(s: &mut String, c: char)
    ensures
        final(s)@ == old(s)@.push(c),
{
    s.push(c);
}

/// Decodes one step at position `i`: appends the denoted character to `out`
/// and returns how many units were consumed (1 or 2), together with whether
/// the step was well-formed.
fn decode_step(units: &Vec<u16>, i: usize, out: &mut String) -> (r: (usize, bool))
    requires
        i < units@.len(),
    ensures
        1 <= r.0 <= 2,
        i + r.0 <= units@.len(),
        final(out)@ == old(out)@ + decoded_lossy(units@.skip(i as int)).take(
            decoded_lossy(units@.skip(i as int)).len() - decoded_lossy(
                units@.skip(i + r.0),
            ).len(),
        ),
        decoded_lossy(units@.skip(i as int)) == final(out)@.skip(old(out)@.len() as int)
            + decoded_lossy(units@.skip(i + r.0)),
        final(out)@.len() == old(out)@.len() + 1,
        r.1 == (!is_surrogate(units@[i as int]) || starts_with_pair(units@.skip(i as int))),
        wellformed(units@.skip(i as int)) == (r.1 && wellformed(units@.skip(i + r.0))),
    decreases 0int,
{
    let ghost rest = units@.skip(i as int);
    proof {
        assert(rest.drop_first() =~= units@.skip(i + 1));
        if rest.len() >= 2 {
            assert(rest.skip(2) =~= units@.skip(i + 2));
        }
    }
    let u = units[i];
    if !(0xD800 <= u && u <= 0xDFFF) {
        let c = char_from_u32(u as u32);
        push_char(out, c);
        proof {
            assert(final(out)@ =~= old(out)@ + seq![c]);
            assert(decoded_lossy(rest) == seq![c] + decoded_lossy(units@.skip(i + 1)));
            assert(final(out)@.skip(old(out)@.len() as int) =~= seq![c]);
            assert(decoded_lossy(rest).take(1) =~= seq![c]);
        }
        (1, true)
    } else if 0xD800 <= u && u <= 0xDBFF && i < units.len() - 1 && {
        let lo = units[i + 1];
        0xDC00 <= lo && lo <= 0xDFFF
    } {
        let lo = units[i + 1];
        let scalar: u32 = 0x10000 + (u as u32 - 0xD800) * 0x400 + (lo as u32 - 0xDC00);
        proof {
            assert(rest[0] == u && rest[1] == lo);
            assert(starts_with_pair(rest));
            assert(scalar == combined_scalar(u, lo));
        }
        let c = char_from_u32(scalar);
        push_char(out, c);
        proof {
            assert(final(out)@ =~= old(out)@ + seq![c]);
            assert(decoded_lossy(rest) == seq![c] + decoded_lossy(units@.skip(i + 2)));
            assert(final(out)@.skip(old(out)@.len() as int) =~= seq![c]);
            assert(decoded_lossy(rest).take(1) =~= seq![c]);
        }
        (2, true)
    } else {
        let c = REPLACEMENT_CHARACTER;
        push_char(out, c);
        proof {
            assert(is_surrogate(u) && !starts_with_pair(rest));
            assert(final(out)@ =~= old(out)@ + seq![c]);
            assert(decoded_lossy(rest) == seq![c] + decoded_lossy(units@.skip(i + 1)));
            assert(final(out)@.skip(old(out)@.len() as int) =~= seq![c]);
            assert(decoded_lossy(rest).take(1) =~= seq![c]);
        }
        (1, false)
    }
}

/// Lossy decoding: every unit contributes a character, ill-formed ones the
/// replacement character.
pub fn decode_lossy(units: &Vec<u16>) -> (r: String)
    ensures
        r@ == decoded_lossy(units@),
{
    let mut out = String::new();
    let mut i: usize = 0;
    proof {
        assert(units@.skip(0) =~= units@);
        assert(out@ + decoded_lossy(units@) =~= decoded_lossy(units@));
    }
    while i < units.len()
        invariant
            i <= units@.len(),
            out@ + decoded_lossy(units@.skip(i as int)) == decoded_lossy(units@),
        decreases units@.len() - i,
    {
        let ghost prev = out@;
        let (step, _ok) = decode_step(units, i, &mut out);
        proof {
            assert(out@ + decoded_lossy(units@.skip(i + step)) =~= prev + (out@.skip(
                prev.len() as int,
            ) + decoded_lossy(units@.skip(i + step))));
        }
        i = i + step;
    }
    proof {
        assert(units@.skip(units@.len() as int) =~= Seq::<u16>::empty());
        assert(out@ =~= decoded_lossy(units@));
    }
    out
}

/// Strict decoding: `Some` exactly on well-formed input, and then the same
/// characters that lossy decoding yields.
pub fn decode_strict(units: &Vec<u16>) -> (r: Option<String>)
    ensures
        r is Some <==> wellformed(units@),
        r matches Some(s) ==> s@ == decoded_lossy(units@),
{
    let mut out = String::new();
    let mut i: usize = 0;
    proof {
        assert(units@.skip(0) =~= units@);
        assert(out@ + decoded_lossy(units@) =~= decoded_lossy(units@));
    }
    while i < units.len()
        invariant
            i <= units@.len(),
            out@ + decoded_lossy(units@.skip(i as int)) == decoded_lossy(units@),
            wellformed(units@) == wellformed(units@.skip(i as int)),
        decreases units@.len() - i,
    {
        let ghost prev = out@;
        let (step, ok) = decode_step(units, i, &mut out);
        if !ok {
            return None;
        }
        proof {
            assert(out@ + decoded_lossy(units@.skip(i + step)) =~= prev + (out@.skip(
                prev.len() as int,
            ) + decoded_lossy(units@.skip(i + step))));
        }
        i = i + step;
    }
    proof {
        assert(units@.skip(units@.len() as int) =~= Seq::<u16>::empty());
        assert(out@ =~= decoded_lossy(units@));
    }
    Some(out)
}

} // verus!
