//! Strings as the NUL-terminated UTF-16 that Windows APIs take.
use vstd::prelude::*;

verus! {

/// The UTF-16 code units of one character: itself below 0x10000, else a
/// surrogate pair.
pub open spec fn utf16_of_char(c: char) -> Seq<u16> {
    let v = c as u32 as int;
    if v < 0x10000 {
        seq![v as u16]
    } else {
        let u = v - 0x10000;
        seq![(0xD800 + u / 0x400) as u16, (0xDC00 + u % 0x400) as u16]
    }
}

/// The UTF-16 code units of a character sequence.
pub open spec fn utf16_units(s: Seq<char>) -> Seq<u16>
    decreases s.len(),
{
    if s.len() == 0 {
        seq![]
    } else {
        utf16_units(s.drop_last()) + utf16_of_char(s.last())
    }
}

/// Encodes `value` as UTF-16 followed by a NUL code unit.
pub fn to_wide_null(value: &str) -> (wide: Vec<u16>)
    ensures
        wide@ == utf16_units(value@).push(0u16),
{
    broadcast use vstd::string::axiom_spec_iter;
    let mut wide: Vec<u16> = Vec::new();
    for c in it: value.chars()
        invariant
            it.seq() == value@,
            wide@ == utf16_units(it.seq().take(it.index())),
    {
        proof {
            assert(it.seq().take(it.index() + 1).drop_last() =~= it.seq().take(it.index()));
        }
        let v = c as u32;
        if v < 0x10000 {
            wide.push(v as u16);
        } else {
            let u = v - 0x10000;
            wide.push((0xD800 + u / 0x400) as u16);
            wide.push((0xDC00 + u % 0x400) as u16);
        }
    }
    proof {
        assert(value@.take(value@.len() as int) =~= value@);
    }
    wide.push(0);
    wide
}

} // verus!
