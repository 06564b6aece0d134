//! Reconciling the per-unit attribute sequence with the composition text:
//! the platform tags each unit of the composition as targeted (part of the
//! clause being converted) or not, and reports the cursor in UTF-16 units;
//! this module turns both into UTF-8 byte offsets into the text.

use vstd::prelude::*;
use vstd::utf8::{encode_scalar, encode_utf8};
use vstd::string::StrSliceExecFns;

verus! {

/// Attribute tag: the unit belongs to the targeted clause and is converted.
pub const ATTR_TARGET_CONVERTED: u8 = 1;

/// Attribute tag: the unit belongs to the targeted clause and is not yet
/// converted.
pub const ATTR_TARGET_NOTCONVERTED: u8 = 3;

/// True when the attribute tag marks its unit as part of the targeted
/// clause.
pub open spec fn is_targeted(a: u8) -> bool {
    a == ATTR_TARGET_CONVERTED || a == ATTR_TARGET_NOTCONVERTED
}

/// How many units the attribute walk covers: text and attributes are
/// reconciled position by position, stopping at the shorter of the two.
pub open spec fn n_units(text: Seq<char>, attrs: Seq<u8>) -> int {
    if text.len() <= attrs.len() {
        text.len() as int
    } else {
        attrs.len() as int
    }
}

/// Index of the first unit whose targeted-ness equals `want`; the length
/// of the sequence when there is none.
pub open spec fn first_with(attrs: Seq<u8>, want: bool) -> int
    decreases attrs.len(),
{
    if attrs.len() == 0 {
        0
    } else if is_targeted(attrs[0]) == want {
        0
    } else {
        1 + first_with(attrs.drop_first(), want)
    }
}

pub proof fn lemma_first_with(attrs: Seq<u8>, want: bool)
    ensures
        0 <= first_with(attrs, want) <= attrs.len(),
        forall|j: int| 0 <= j < first_with(attrs, want) ==> is_targeted(attrs[j]) != want,
        first_with(attrs, want) < attrs.len() ==> is_targeted(attrs[first_with(attrs, want)])
            == want,
    decreases attrs.len(),
{
    if attrs.len() != 0 && is_targeted(attrs[0]) != want {
        lemma_first_with(attrs.drop_first(), want);
        assert forall|j: int| 0 <= j < first_with(attrs, want) implies is_targeted(attrs[j])
            != want by {
            if j > 0 {
                assert(attrs[j] == attrs.drop_first()[j - 1]);
            }
        }
        if first_with(attrs, want) < attrs.len() {
            assert(attrs[first_with(attrs, want)] == attrs.drop_first()[first_with(
                attrs.drop_first(),
                want,
            )]);
        }
    }
}

/// `first_with` is pinned by its characteristic property: everything below
/// `k` disagrees with `want`, and `k` itself (when in range) agrees.
pub proof fn lemma_first_with_pin(attrs: Seq<u8>, want: bool, k: int)
    requires
        0 <= k <= attrs.len(),
        forall|j: int| 0 <= j < k ==> is_targeted(attrs[j]) != want,
        k < attrs.len() ==> is_targeted(attrs[k]) == want,
    ensures
        first_with(attrs, want) == k,
    decreases attrs.len(),
{
    if k == 0 {
        if attrs.len() > 0 && is_targeted(attrs[0]) != want {
            lemma_first_with(attrs, want);
        }
    } else {
        assert(is_targeted(attrs[0]) != want);
        assert forall|j: int| 0 <= j < k - 1 implies is_targeted(attrs.drop_first()[j])
            != want by {
            assert(attrs.drop_first()[j] == attrs[j + 1]);
        }
        if k - 1 < attrs.drop_first().len() {
            assert(attrs.drop_first()[k - 1] == attrs[k]);
        }
        lemma_first_with_pin(attrs.drop_first(), want, k - 1);
    }
}

/// Number of bytes in the UTF-8 encoding of `c`.
pub open spec fn utf8_width(c: char) -> int {
    if c as u32 <= 0x7F {
        1
    } else if c as u32 <= 0x7FF {
        2
    } else if c as u32 <= 0xFFFF {
        3
    } else {
        4
    }
}

/// Number of bytes in the UTF-8 encoding of `s`.
pub open spec fn utf8_len(s: Seq<char>) -> int
    decreases s.len(),
{
    if s.len() == 0 {
        0
    } else {
        utf8_width(s[0]) + utf8_len(s.drop_first())
    }
}

pub proof fn lemma_utf8_width_is_encoded_width(c: char)
    ensures
        utf8_width(c) == encode_scalar(c as u32).len(),
{
}

pub proof fn lemma_utf8_len_is_encoded_len(s: Seq<char>)
    ensures
        utf8_len(s) == encode_utf8(s).len(),
    decreases s.len(),
{
    if s.len() != 0 {
        lemma_utf8_width_is_encoded_width(s[0]);
        lemma_utf8_len_is_encoded_len(s.drop_first());
    }
}

pub proof fn lemma_utf8_len_nonneg(s: Seq<char>)
    ensures
        utf8_len(s) >= 0,
    decreases s.len(),
{
    if s.len() != 0 {
        lemma_utf8_len_nonneg(s.drop_first());
    }
}

pub proof fn lemma_utf8_len_push(s: Seq<char>, c: char)
    ensures
        utf8_len(s.push(c)) == utf8_len(s) + utf8_width(c),
    decreases s.len(),
{
    if s.len() == 0 {
        assert(s.push(c)[0] == c);
        assert(s.push(c).drop_first() =~= Seq::<char>::empty());
        assert(utf8_len(s.push(c)) == utf8_width(c) + utf8_len(Seq::<char>::empty()));
    } else {
        assert(s.push(c).drop_first() =~= s.drop_first().push(c));
        assert(s.push(c)[0] == s[0]);
        lemma_utf8_len_push(s.drop_first(), c);
        assert(utf8_len(s.push(c)) == utf8_width(s[0]) + utf8_len(s.drop_first().push(c)));
    }
}

pub proof fn lemma_utf8_len_take_succ(s: Seq<char>, i: int)
    requires
        0 <= i < s.len(),
    ensures
        utf8_len(s.take(i + 1)) == utf8_len(s.take(i)) + utf8_width(s[i]),
{
    assert(s.take(i + 1) =~= s.take(i).push(s[i]));
    lemma_utf8_len_push(s.take(i), s[i]);
}

pub proof fn lemma_utf8_len_take_le(s: Seq<char>, i: int)
    requires
        0 <= i <= s.len(),
    ensures
        utf8_len(s.take(i)) <= utf8_len(s),
    decreases s.len() - i,
{
    if i == s.len() {
        assert(s.take(i) =~= s);
    } else {
        lemma_utf8_len_take_succ(s, i);
        lemma_utf8_len_take_le(s, i + 1);
    }
}

/// Number of bytes the UTF-8 encoding of `c` takes.
pub fn char_utf8_width(c: char) -> (w: u8)
    ensures
        w == utf8_width(c),
{
    let x = c as u32;
    if x <= 0x7F {
        1
    } else if x <= 0x7FF {
        2
    } else if x <= 0xFFFF {
        3
    } else {
        4
    }
}

/// The byte range of the first contiguous targeted run: its start is the
/// byte offset of the first targeted unit, its end the offset of the first
/// unit at which targeting reverts — or the full byte length of the text
/// when it never does. `None` when no unit of the reconciled prefix is
/// targeted.
pub open spec fn spec_clause_range(text: Seq<char>, attrs: Seq<u8>) -> Option<(int, int)> {
    let n = n_units(text, attrs);
    let zipped = attrs.take(n);
    let f = first_with(zipped, true);
    if f >= n {
        None
    } else {
        let l = f + 1 + first_with(zipped.skip(f + 1), false);
        let end = if l >= n {
            utf8_len(text)
        } else {
            utf8_len(text.take(l))
        };
        Some((utf8_len(text.take(f)), end))
    }
}

/// Byte offset of the platform cursor: the UTF-8 length of the first
/// `cursor` characters (of all of them when the text is shorter).
pub open spec fn spec_cursor_offset(text: Seq<char>, cursor: int) -> int
    recommends
        0 <= cursor,
{
    if cursor <= text.len() {
        utf8_len(text.take(cursor))
    } else {
        utf8_len(text)
    }
}

/// The full composing-range rule: the first targeted run's byte range when
/// one exists, else a range collapsed to the cursor's byte offset, absent
/// when the platform reported no cursor (a negative value).
pub open spec fn spec_composing_range(text: Seq<char>, attrs: Seq<u8>, cursor: int) -> (
    Option<int>,
    Option<int>,
) {
    match spec_clause_range(text, attrs) {
        Some((s, e)) => (Some(s), Some(e)),
        None => if cursor >= 0 {
            (Some(spec_cursor_offset(text, cursor)), Some(spec_cursor_offset(text, cursor)))
        } else {
            (None, None)
        },
    }
}

/// Walks the attribute sequence in lock-step with the characters of `text`,
/// accumulating a running UTF-8 byte offset, and returns the byte range of
/// the first contiguous targeted run, or `None` when there is none.
pub fn clause_byte_range(text: &str, attrs: &Vec<u8>) -> (r: Option<(usize, usize)>)
    requires
        utf8_len(text@) <= usize::MAX,
    ensures
        r is None <==> spec_clause_range(text@, attrs@) is None,
        r matches Some((s, e)) ==> spec_clause_range(text@, attrs@) == Some((s as int, e as int)),
{
    let text_units = text.unicode_len();
    let n: usize = if attrs.len() < text_units {
        attrs.len()
    } else {
        text_units
    };
    let ghost zipped = attrs@.take(n as int);
    let ghost f = first_with(zipped, true);
    let ghost l = f + 1 + first_with(zipped.skip(f + 1), false);
    proof {
        lemma_first_with(zipped, true);
        if f < n {
            lemma_first_with(zipped.skip(f + 1), false);
            assert forall|j: int| f < j < l implies is_targeted(zipped[j]) by {
                assert(zipped.skip(f + 1)[j - f - 1] == zipped[j]);
            }
            if l < n {
                assert(zipped[l] == zipped.skip(f + 1)[l - f - 1]);
                assert(!is_targeted(zipped[l]));
            }
        }
        assert(text@.take(0) =~= Seq::<char>::empty());
    }
    let mut first: Option<usize> = None;
    let mut last: Option<usize> = None;
    let mut boundary: usize = 0;
    let mut i: usize = 0;
    while i < n
        invariant
            n == n_units(text@, attrs@),
            n <= text@.len(),
            n <= attrs@.len(),
            zipped == attrs@.take(n as int),
            f == first_with(zipped, true),
            0 <= f <= n,
            forall|j: int| 0 <= j < f ==> !is_targeted(zipped[j]),
            f < n ==> is_targeted(zipped[f]),
            f < n ==> f < l <= n,
            f < n ==> (forall|j: int| f < j < l ==> is_targeted(zipped[j])),
            f < n && l < n ==> !is_targeted(zipped[l]),
            i <= n,
            boundary == utf8_len(text@.take(i as int)),
            utf8_len(text@) <= usize::MAX,
            first is None <==> f >= i,
            first is Some ==> first == Some(utf8_len(text@.take(f)) as usize) && f < n,
            last is Some <==> f < i && l < i,
            last is Some ==> last == Some(utf8_len(text@.take(l)) as usize),
        decreases n - i,
    {
        let c = text.get_char(i);
        let w = char_utf8_width(c);
        let a = attrs[i];
        let targeted = a == ATTR_TARGET_CONVERTED || a == ATTR_TARGET_NOTCONVERTED;
        proof {
            assert(zipped[i as int] == attrs@[i as int]);
            assert(targeted == is_targeted(zipped[i as int]));
        }
        if first.is_none() {
            if targeted {
                proof {
                    assert(i as int == f);
                }
                first = Some(boundary);
            }
        } else if last.is_none() {
            if !targeted {
                proof {
                    assert(i as int == l);
                }
                last = Some(boundary);
            }
        }
        proof {
            lemma_utf8_len_take_succ(text@, i as int);
            lemma_utf8_len_take_le(text@, i + 1);
        }
        boundary = boundary + w as usize;
        i = i + 1;
    }
    proof {
        lemma_utf8_len_nonneg(text@.take(f));
        lemma_utf8_len_take_le(text@, f);
        if f < n {
            lemma_utf8_len_nonneg(text@.take(l));
            lemma_utf8_len_take_le(text@, l);
        }
    }
    if first.is_some() && last.is_none() {
        proof {
            lemma_utf8_len_is_encoded_len(text@);
            lemma_utf8_len_nonneg(text@);
        }
        last = Some(text.len());
    }
    match (first, last) {
        (Some(s), Some(e)) => Some((s, e)),
        _ => None,
    }
}

/// Converts the platform-reported cursor position, counted in units of the
/// composition, to a UTF-8 byte offset into `text` by summing the encoded
/// length of each character up to that count. A negative report means the
/// cursor could not be determined.
pub fn cursor_byte_offset(text: &str, cursor: i32) -> (r: Option<usize>)
    requires
        utf8_len(text@) <= usize::MAX,
    ensures
        r is Some <==> cursor >= 0,
        r matches Some(o) ==> o as int == spec_cursor_offset(text@, cursor as int),
{
    if cursor < 0 {
        return None;
    }
    let text_units = text.unicode_len();
    let n: usize = if (cursor as usize) < text_units {
        cursor as usize
    } else {
        text_units
    };
    let mut boundary: usize = 0;
    let mut i: usize = 0;
    proof {
        assert(text@.take(0) =~= Seq::<char>::empty());
        if cursor as int > text@.len() {
            assert(text@.take(text@.len() as int) =~= text@);
        }
    }
    while i < n
        invariant
            n <= text@.len(),
            n == if cursor as int <= text@.len() {
                cursor as int
            } else {
                text@.len() as int
            },
            i <= n,
            boundary == utf8_len(text@.take(i as int)),
            utf8_len(text@) <= usize::MAX,
        decreases n - i,
    {
        let c = text.get_char(i);
        let w = char_utf8_width(c);
        proof {
            lemma_utf8_len_take_succ(text@, i as int);
            lemma_utf8_len_take_le(text@, i + 1);
        }
        boundary = boundary + w as usize;
        i = i + 1;
    }
    proof {
        if cursor as int > text@.len() {
            assert(text@.take(n as int) =~= text@);
        }
    }
    Some(boundary)
}

pub proof fn lemma_encode_append(a: Seq<char>, b: Seq<char>)
    ensures
        encode_utf8(a + b) == encode_utf8(a) + encode_utf8(b),
    decreases a.len(),
{
    if a.len() == 0 {
        assert(a + b =~= b);
        assert(encode_utf8(a) + encode_utf8(b) =~= encode_utf8(b));
    } else {
        assert((a + b).drop_first() =~= a.drop_first() + b);
        assert((a + b)[0] == a[0]);
        lemma_encode_append(a.drop_first(), b);
        assert(encode_utf8(a + b) == encode_scalar(a[0] as u32) + (encode_utf8(a.drop_first())
            + encode_utf8(b)));
        assert(encode_scalar(a[0] as u32) + (encode_utf8(a.drop_first()) + encode_utf8(b)) =~= (
        encode_scalar(a[0] as u32) + encode_utf8(a.drop_first())) + encode_utf8(b));
    }
}

/// A single contiguous targeted run is mapped to exactly its UTF-8 byte
/// range: the computed offsets bracket precisely that run, and the bytes of
/// the encoded text between them are exactly the re-encoding of the
/// targeted characters.
pub proof fn lemma_single_run_brackets_exactly(text: Seq<char>, attrs: Seq<u8>, f: int, l: int)
    requires
        text.len() == attrs.len(),
        0 <= f < l <= text.len(),
        forall|j: int| 0 <= j < text.len() ==> (is_targeted(attrs[j]) <==> f <= j < l),
    ensures
        spec_clause_range(text, attrs) == Some(
            (utf8_len(text.take(f)), utf8_len(text.take(l))),
        ),
        encode_utf8(text).subrange(utf8_len(text.take(f)), utf8_len(text.take(l)))
            == encode_utf8(text.subrange(f, l)),
{
    let n = n_units(text, attrs);
    let zipped = attrs.take(n);
    assert(zipped =~= attrs);
    lemma_first_with_pin(zipped, true, f);
    let sk = zipped.skip(f + 1);
    assert forall|j: int| 0 <= j < l - f - 1 implies is_targeted(sk[j]) == true by {
        assert(sk[j] == attrs[j + f + 1]);
    }
    if l - f - 1 < sk.len() {
        assert(sk[l - f - 1] == attrs[l]);
    }
    lemma_first_with_pin(sk, false, l - f - 1);
    if l >= n {
        assert(text.take(l) =~= text);
    }
    let x = text.take(f);
    let y = text.subrange(f, l);
    let z = text.skip(l);
    lemma_encode_append(x, y);
    lemma_encode_append(x + y, z);
    assert(x + y =~= text.take(l));
    assert((x + y) + z =~= text);
    let ex = encode_utf8(x);
    let ey = encode_utf8(y);
    let ez = encode_utf8(z);
    assert(encode_utf8(text) == (ex + ey) + ez);
    lemma_utf8_len_is_encoded_len(x);
    lemma_utf8_len_is_encoded_len(text.take(l));
    assert(encode_utf8(text.take(l)) == ex + ey);
    assert(utf8_len(text.take(l)) == ex.len() + ey.len());
    assert(((ex + ey) + ez).subrange(ex.len() as int, ex.len() + ey.len() as int) =~= ey);
}

/// With no targeted unit in the reconciled prefix, there is no clause range,
/// and the composing range collapses to the cursor's byte offset on both
/// sides.
pub proof fn lemma_untargeted_collapses_to_cursor(text: Seq<char>, attrs: Seq<u8>, cursor: int)
    requires
        forall|j: int| 0 <= j < n_units(text, attrs) ==> !is_targeted(attrs[j]),
        0 <= cursor,
    ensures
        spec_clause_range(text, attrs) is None,
        spec_composing_range(text, attrs, cursor) == (
            Some(spec_cursor_offset(text, cursor)),
            Some(spec_cursor_offset(text, cursor)),
        ),
{
    let n = n_units(text, attrs);
    let zipped = attrs.take(n);
    assert forall|j: int| 0 <= j < n implies !is_targeted(zipped[j]) by {
        assert(zipped[j] == attrs[j]);
    }
    lemma_first_with_pin(zipped, true, n);
}

/// A targeted run that reaches the end of the attribute walk ends at the
/// full byte length of the text.
pub proof fn lemma_run_to_end_of_attrs(text: Seq<char>, attrs: Seq<u8>, f: int)
    requires
        0 <= f < n_units(text, attrs),
        forall|j: int| 0 <= j < f ==> !is_targeted(attrs[j]),
        forall|j: int| f <= j < n_units(text, attrs) ==> is_targeted(attrs[j]),
    ensures
        spec_clause_range(text, attrs) == Some(
            (utf8_len(text.take(f)), encode_utf8(text).len() as int),
        ),
{
    let n = n_units(text, attrs);
    let zipped = attrs.take(n);
    assert forall|j: int| 0 <= j < n implies is_targeted(zipped[j]) == is_targeted(attrs[j]) by {
        assert(zipped[j] == attrs[j]);
    }
    lemma_first_with_pin(zipped, true, f);
    let sk = zipped.skip(f + 1);
    assert forall|j: int| 0 <= j < sk.len() implies is_targeted(sk[j]) == true by {
        assert(sk[j] == zipped[j + f + 1]);
    }
    lemma_first_with_pin(sk, false, n - f - 1);
    lemma_utf8_len_is_encoded_len(text);
}

} // verus!
