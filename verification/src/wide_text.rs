//! Text for the Win32 "W" functions: UTF-16 with a terminating NUL.
use vstd::prelude::*;
use crate::text::chars_of;

verus! {

/// The UTF-16 code units of one character: itself below U+10000, else a
/// high and a low surrogate.
pub open spec fn utf16_units(c: char) -> Seq<u16> {
    let v = (c as u32) as int;
    if v < 0x10000 {
        seq![v as u16]
    } else {
        seq![(0xD800 + (v - 0x10000) / 0x400) as u16, (0xDC00 + (v - 0x10000) % 0x400) as u16]
    }
}

/// The UTF-16 encoding of a text.
pub open spec fn utf16_of(s: Seq<char>) -> Seq<u16>
    decreases s.len(),
{
    if s.len() == 0 {
        seq![]
    } else {
        utf16_of(s.drop_last()) + utf16_units(s.last())
    }
}

/// Convert a `&str` to a NUL-terminated UTF-16 buffer for the Win32 W
/// APIs.
pub fn wide(s: &str) -> (r: Vec<u16>)
    ensures
        r@ == utf16_of(s@).push(0),
{
    let cs = chars_of(s);
    let mut out: Vec<u16> = Vec::new();
    let mut i: usize = 0;
    while i < cs.len()
        invariant
            i <= cs@.len(),
            cs@ == s@,
            out@ == utf16_of(cs@.take(i as int)),
        decreases cs.len() - i,
    {
        let c = cs[i];
        let v = c as u32;
        proof {
            vstd::utf8::char_is_scalar(c);
        }
        assert(v <= 0x10FFFF);
        if v < 0x10000 {
            out.push(v as u16);
        } else {
            let u = v - 0x10000;
            out.push((0xD800 + u / 0x400) as u16);
            out.push((0xDC00 + u % 0x400) as u16);
        }
        proof {
            assert(cs@.take(i + 1).drop_last() == cs@.take(i as int));
            assert(cs@.take(i + 1).last() == c);
            assert(out@ =~= utf16_of(cs@.take(i + 1)));
        }
        i = i + 1;
    }
    assert(cs@.take(i as int) == s@);
    out.push(0);
    out
}

/// Text without characters beyond U+FFFF takes one code unit a
/// character: the unit is the character's code.
pub proof fn law_wide_basic_plane(s: Seq<char>)
    requires
        forall|i: int| 0 <= i < s.len() ==> (#[trigger] s[i] as u32) < 0x10000,
    ensures
        utf16_of(s).len() == s.len(),
        forall|i: int| 0 <= i < s.len() ==> #[trigger] utf16_of(s)[i] == (s[i] as u32) as u16,
    decreases s.len(),
{
    if s.len() > 0 {
        let d = s.drop_last();
        assert forall|i: int| 0 <= i < d.len() implies (#[trigger] d[i] as u32) < 0x10000 by {
            assert(d[i] == s[i]);
        }
        law_wide_basic_plane(d);
        assert((s.last() as u32) < 0x10000);
        assert forall|i: int| 0 <= i < s.len() implies #[trigger] utf16_of(s)[i] == (s[i] as u32) as u16 by {
            if i < d.len() {
                assert(d[i] == s[i]);
                assert(utf16_of(s)[i] == utf16_of(d)[i]);
            }
        }
    }
}

} // verus!
