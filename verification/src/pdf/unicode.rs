//! Character-level building blocks: UTF-16 in both directions, and the two
//! standard-library character conversions the rest of the crate leans on.

use vstd::prelude::*;

verus! {

/// Whether `v` is a Unicode scalar value, i.e. a valid `char`.
pub open spec fn is_scalar_value(v: int) -> bool {
    0 <= v <= 0x10FFFF && !(0xD800 <= v <= 0xDFFF)
}

/// `char::from_u32`: `Some` of the character with code point `v` when `v` is
/// a Unicode scalar value, `None` otherwise.
#[verifier::external_body]
pub fn char_from_u32(v: u32) -> (r: Option<char>)
    ensures
        r == if is_scalar_value(v as int) {
            Some(v as char)
        } else {
            None
        },
{
    char::from_u32(v)
}

/// `String::push`: appends one character.
#[verifier::external_body]
pub fn push_char(text: &mut String, c: char)
    ensures
        final(text)@ == old(text)@.push(c),
{
    text.push(c);
}

/// The characters of `text`, in order.
pub fn chars_of(text: &str) -> (r: Vec<char>)
    ensures
        r@ == text@,
{
    let mut out: Vec<char> = Vec::new();
    for c in it: text.chars()
        invariant
            out@ == it.seq().subrange(0, it.index() as int),
            text@ == it.seq(),
    {
        out.push(c);
    }
    assert(out@ =~= text@);
    out
}

/// A string holding exactly `chars`.
pub fn string_from(chars: &Vec<char>) -> (r: String)
    ensures
        r@ == chars@,
{
    let mut out = String::new();
    let mut index: usize = 0;
    while index < chars.len()
        invariant
            0 <= index <= chars@.len(),
            out@ == chars@.subrange(0, index as int),
        decreases chars@.len() - index,
    {
        push_char(&mut out, chars[index]);
        index = index + 1;
        assert(out@ =~= chars@.subrange(0, index as int));
    }
    assert(chars@.subrange(0, chars@.len() as int) =~= chars@);
    out
}

pub open spec fn is_high_surrogate(u: u16) -> bool {
    0xD800 <= u <= 0xDBFF
}

pub open spec fn is_low_surrogate(u: u16) -> bool {
    0xDC00 <= u <= 0xDFFF
}

pub open spec fn is_surrogate(u: u16) -> bool {
    0xD800 <= u <= 0xDFFF
}

/// The code point a surrogate pair stands for.
pub open spec fn pair_value(high: u16, low: u16) -> int {
    0x10000 + (high - 0xD800) * 0x400 + (low - 0xDC00)
}

/// UTF-16 decoding, with every unpaired surrogate read as U+FFFD (what
/// `String::from_utf16_lossy` produces). A high surrogate is paired only with
/// an immediately following low one; anything else after it is read afresh.
pub open spec fn decode_utf16_lossy(units: Seq<u16>) -> Seq<char>
    decreases units.len(),
{
    if units.len() == 0 {
        Seq::empty()
    } else if units.len() >= 2 && is_high_surrogate(units[0]) && is_low_surrogate(units[1]) {
        seq![pair_value(units[0], units[1]) as char] + decode_utf16_lossy(units.subrange(2, units.len() as int))
    } else if is_surrogate(units[0]) {
        seq!['\u{FFFD}'] + decode_utf16_lossy(units.subrange(1, units.len() as int))
    } else {
        seq![units[0] as char] + decode_utf16_lossy(units.subrange(1, units.len() as int))
    }
}

/// UTF-16 decoding that fails on any unpaired surrogate (what
/// `String::from_utf16` does).
pub open spec fn decode_utf16_strict(units: Seq<u16>) -> Option<Seq<char>>
    decreases units.len(),
{
    if units.len() == 0 {
        Some(Seq::empty())
    } else if units.len() >= 2 && is_high_surrogate(units[0]) && is_low_surrogate(units[1]) {
        match decode_utf16_strict(units.subrange(2, units.len() as int)) {
            Some(rest) => Some(seq![pair_value(units[0], units[1]) as char] + rest),
            None => None,
        }
    } else if is_surrogate(units[0]) {
        None
    } else {
        match decode_utf16_strict(units.subrange(1, units.len() as int)) {
            Some(rest) => Some(seq![units[0] as char] + rest),
            None => None,
        }
    }
}

/// The UTF-16 code units of one character.
pub open spec fn utf16_of(c: char) -> Seq<u16> {
    let v = c as u32;
    if v < 0x10000 {
        seq![v as u16]
    } else {
        seq![(0xD800 + (v - 0x10000) / 0x400) as u16, (0xDC00 + (v - 0x10000) % 0x400) as u16]
    }
}

/// The UTF-16 code units of a text (what `str::encode_utf16` yields).
pub open spec fn encode_utf16(text: Seq<char>) -> Seq<u16>
    decreases text.len(),
{
    if text.len() == 0 {
        Seq::empty()
    } else {
        utf16_of(text[0]) + encode_utf16(text.subrange(1, text.len() as int))
    }
}

fn decode_one(units: &Vec<u16>, at: usize) -> (r: (char, usize))
    requires
        at < units@.len(),
    ensures
        ({
            let rest = units@.subrange(at as int, units@.len() as int);
            &&& r.1 == 1 || r.1 == 2
            &&& at + r.1 <= units@.len()
            &&& decode_utf16_lossy(rest) == seq![r.0] + decode_utf16_lossy(
                units@.subrange(at + r.1, units@.len() as int),
            )
        }),
{
    let ghost rest = units@.subrange(at as int, units@.len() as int);
    let first = units[at];
    if units.len() - at > 1 && 0xD800 <= first && first <= 0xDBFF && 0xDC00 <= units[at + 1]
        && units[at + 1] <= 0xDFFF {
        let second = units[at + 1];
        let value: u32 = 0x10000 + ((first as u32) - 0xD800) * 0x400 + ((second as u32) - 0xDC00);
        assert(rest.subrange(2, rest.len() as int) =~= units@.subrange(at + 2, units@.len() as int));
        match char_from_u32(value) {
            Some(c) => {
                (c, 2)
            },
            None => {
                assert(false);
                ('\u{FFFD}', 2)
            },
        }
    } else if 0xD800 <= first && first <= 0xDFFF {
        assert(rest.subrange(1, rest.len() as int) =~= units@.subrange(at + 1, units@.len() as int));
        ('\u{FFFD}', 1)
    } else {
        assert(rest.subrange(1, rest.len() as int) =~= units@.subrange(at + 1, units@.len() as int));
        match char_from_u32(first as u32) {
            Some(c) => (c, 1),
            None => {
                assert(false);
                ('\u{FFFD}', 1)
            },
        }
    }
}

/// `String::from_utf16_lossy`, written out: decodes UTF-16, reading every
/// unpaired surrogate as U+FFFD.
pub fn from_utf16_lossy(units: &Vec<u16>) -> (r: String)
    ensures
        r@ == decode_utf16_lossy(units@),
{
    let mut out = String::new();
    let mut at: usize = 0;
    assert(units@.subrange(0, units@.len() as int) =~= units@);
    assert(Seq::<char>::empty() + decode_utf16_lossy(units@) =~= decode_utf16_lossy(units@));
    while at < units.len()
        invariant
            at <= units@.len(),
            decode_utf16_lossy(units@) == out@ + decode_utf16_lossy(
                units@.subrange(at as int, units@.len() as int),
            ),
        decreases units@.len() - at,
    {
        let (c, used) = decode_one(units, at);
        let ghost before = out@;
        push_char(&mut out, c);
        at = at + used;
        assert(out@ == before + seq![c]);
        assert(before + (seq![c] + decode_utf16_lossy(units@.subrange(at as int, units@.len() as int)))
            =~= out@ + decode_utf16_lossy(units@.subrange(at as int, units@.len() as int)));
    }
    assert(units@.subrange(at as int, units@.len() as int) =~= Seq::<u16>::empty());
    assert(out@ + Seq::<char>::empty() =~= out@);
    out
}

/// The UTF-16 units of `c`, computed.
pub fn utf16_units(c: char) -> (r: (u16, Option<u16>))
    ensures
        utf16_of(c) == match r.1 {
            None => seq![r.0],
            Some(low) => seq![r.0, low],
        },
{
    let v = c as u32;
    if v < 0x10000 {
        (v as u16, None)
    } else {
        let offset = v - 0x10000;
        ((0xD800 + offset / 0x400) as u16, Some((0xDC00 + offset % 0x400) as u16))
    }
}

pub proof fn lemma_encode_utf16_step(text: Seq<char>, i: int)
    requires
        0 <= i < text.len(),
    ensures
        encode_utf16(text.subrange(0, i + 1)) == encode_utf16(text.subrange(0, i)) + utf16_of(
            text[i],
        ),
    decreases i,
{
    let head = text.subrange(0, i + 1);
    assert(encode_utf16(head) == utf16_of(head[0]) + encode_utf16(head.subrange(1, head.len() as int)));
    if i == 0 {
        assert(head.subrange(1, head.len() as int) =~= Seq::<char>::empty());
        assert(encode_utf16(text.subrange(0, 0)) =~= Seq::<u16>::empty());
        assert(utf16_of(text[0]) + Seq::<u16>::empty() =~= utf16_of(text[0]));
    } else {
        let tail = text.subrange(1, text.len() as int);
        lemma_encode_utf16_step(tail, i - 1);
        assert(head.subrange(1, head.len() as int) =~= tail.subrange(0, i));
        assert(text.subrange(0, i).subrange(1, i) =~= tail.subrange(0, i - 1));
        assert(text.subrange(0, i)[0] == text[0]);
        let front = text.subrange(0, i);
        assert(encode_utf16(front) == utf16_of(front[0]) + encode_utf16(front.subrange(1, front.len() as int)));
        assert(head[0] == text[0]);
        assert(tail[i - 1] == text[i]);
        assert(utf16_of(text[0]) + (encode_utf16(tail.subrange(0, i - 1)) + utf16_of(text[i]))
            =~= (utf16_of(text[0]) + encode_utf16(tail.subrange(0, i - 1))) + utf16_of(text[i]));
    }
}

/// The UTF-16 code units of `chars` (what `str::encode_utf16` yields).
pub fn encode_utf16_units(chars: &Vec<char>) -> (r: Vec<u16>)
    ensures
        r@ == encode_utf16(chars@),
{
    let mut out: Vec<u16> = Vec::new();
    let mut index: usize = 0;
    assert(encode_utf16(chars@.subrange(0, 0)) =~= Seq::<u16>::empty());
    while index < chars.len()
        invariant
            0 <= index <= chars@.len(),
            out@ == encode_utf16(chars@.subrange(0, index as int)),
        decreases chars@.len() - index,
    {
        let (high, low) = utf16_units(chars[index]);
        proof {
            lemma_encode_utf16_step(chars@, index as int);
        }
        out.push(high);
        match low {
            Some(low) => out.push(low),
            None => {},
        }
        index = index + 1;
        assert(out@ =~= encode_utf16(chars@.subrange(0, index as int)));
    }
    assert(chars@.subrange(0, chars@.len() as int) =~= chars@);
    out
}

/// `String::from_utf16`, written out: decodes UTF-16, failing on any unpaired
/// surrogate.
pub fn from_utf16_strict(units: &Vec<u16>) -> (r: Option<String>)
    ensures
        match r {
            Some(text) => decode_utf16_strict(units@) == Some(text@),
            None => decode_utf16_strict(units@) is None,
        },
{
    let mut out = String::new();
    let mut at: usize = 0;
    assert(units@.subrange(0, units@.len() as int) =~= units@);
    while at < units.len()
        invariant
            at <= units@.len(),
            decode_utf16_strict(units@) == match decode_utf16_strict(
                units@.subrange(at as int, units@.len() as int),
            ) {
                Some(rest) => Some(out@ + rest),
                None => None,
            },
        decreases units@.len() - at,
    {
        let ghost rest = units@.subrange(at as int, units@.len() as int);
        let first = units[at];
        if units.len() - at > 1 && 0xD800 <= first && first <= 0xDBFF && 0xDC00 <= units[at + 1]
            && units[at + 1] <= 0xDFFF {
            let second = units[at + 1];
            let value: u32 = 0x10000 + ((first as u32) - 0xD800) * 0x400 + ((second as u32) - 0xDC00);
            assert(rest.subrange(2, rest.len() as int) =~= units@.subrange(at + 2, units@.len() as int));
            let c = match char_from_u32(value) {
                Some(c) => c,
                None => {
                    assert(false);
                    '\u{FFFD}'
                },
            };
            let ghost before = out@;
            push_char(&mut out, c);
            at = at + 2;
            proof {
                match decode_utf16_strict(units@.subrange(at as int, units@.len() as int)) {
                    Some(tail) => assert(before + (seq![c] + tail) =~= out@ + tail),
                    None => {},
                }
            }
        } else if 0xD800 <= first && first <= 0xDFFF {
            return None;
        } else {
            assert(rest.subrange(1, rest.len() as int) =~= units@.subrange(at + 1, units@.len() as int));
            let c = match char_from_u32(first as u32) {
                Some(c) => c,
                None => {
                    assert(false);
                    '\u{FFFD}'
                },
            };
            let ghost before = out@;
            push_char(&mut out, c);
            at = at + 1;
            proof {
                match decode_utf16_strict(units@.subrange(at as int, units@.len() as int)) {
                    Some(tail) => assert(before + (seq![c] + tail) =~= out@ + tail),
                    None => {},
                }
            }
        }
    }
    assert(units@.subrange(at as int, units@.len() as int) =~= Seq::<u16>::empty());
    assert(out@ + Seq::<char>::empty() =~= out@);
    Some(out)
}

} // verus!
