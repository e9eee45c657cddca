//! The checks a foreign shader's source passes before it is compiled:
//! its bytes are UTF-8, byte-order marks at its start are dropped, and
//! what is left is not blank.
use vstd::prelude::*;
use crate::ssh_env::opt_view;
use crate::text::{chars_of, string_of, trim, trim_exec};

verus! {

/// Why a shader's source was refused.
#[derive(Debug, Clone, Copy, PartialEq, Eq, Structural)]
pub enum ShaderSourceError {
    /// The bytes are not UTF-8.
    InvalidUtf8,
    /// Nothing but white space (after any byte-order marks).
    EmptyShader,
}

/// The text that bytes decode to, if they are valid UTF-8 (vstd's
/// statement of the UTF-8 encoding).
pub open spec fn utf8_text(bytes: Seq<u8>) -> Option<Seq<char>> {
    if vstd::utf8::valid_utf8(bytes) {
        Some(vstd::utf8::decode_utf8(bytes))
    } else {
        None
    }
}

/// Trusted: `std::str::from_utf8` returns the text the bytes encode when
/// they are valid UTF-8 (well-formed sequences, no overlong encodings,
/// no surrogates, nothing above U+10FFFF) and an error otherwise, which
/// is what `utf8_text` states.
#[verifier::external_body]
fn decode_utf8(bytes: &[u8]) -> (r: Option<String>)
    ensures
        opt_view(r) == utf8_text(bytes@),
{
    match std::str::from_utf8(bytes) {
        Ok(s) => Some(s.to_string()),
        Err(_) => None,
    }
}

/// `s` without the byte-order marks it starts with.
pub open spec fn strip_boms(s: Seq<char>) -> Seq<char>
    decreases s.len(),
{
    if s.len() > 0 && s[0] == '\u{FEFF}' {
        strip_boms(s.drop_first())
    } else {
        s
    }
}

/// The source a shader's decoded text gives: the text without leading
/// byte-order marks, unless that is blank.
pub open spec fn source_of_text(text: Option<Seq<char>>) -> Result<Seq<char>, ShaderSourceError> {
    match text {
        None => Err(ShaderSourceError::InvalidUtf8),
        Some(t) => {
            let s = strip_boms(t);
            if trim(s).len() == 0 {
                Err(ShaderSourceError::EmptyShader)
            } else {
                Ok(s)
            }
        },
    }
}

/// The shader source of decoded text (`None` where the bytes were not
/// UTF-8): leading byte-order marks dropped, blank text refused.
pub fn source_from_text(text: Option<&str>) -> (r: Result<String, ShaderSourceError>)
    ensures
        match r {
            Ok(s) => source_of_text(
                match text {
                    Some(t) => Some(t@),
                    None => None,
                },
            ) == Ok::<Seq<char>, ShaderSourceError>(s@),
            Err(e) => source_of_text(
                match text {
                    Some(t) => Some(t@),
                    None => None,
                },
            ) == Err::<Seq<char>, ShaderSourceError>(e),
        },
{
    let t = match text {
        None => {
            return Err(ShaderSourceError::InvalidUtf8);
        },
        Some(t) => t,
    };
    let cs = chars_of(t);
    let mut i: usize = 0;
    assert(cs@.skip(0) =~= cs@);
    while i < cs.len() && cs[i] == '\u{FEFF}'
        invariant
            i <= cs.len(),
            strip_boms(cs@) == strip_boms(cs@.skip(i as int)),
        decreases cs.len() - i,
    {
        assert(cs@.skip(i as int).drop_first() =~= cs@.skip(i + 1));
        i = i + 1;
    }
    let mut rest: Vec<char> = Vec::new();
    let mut j: usize = i;
    while j < cs.len()
        invariant
            i <= j <= cs.len(),
            rest@ == cs@.subrange(i as int, j as int),
        decreases cs.len() - j,
    {
        rest.push(cs[j]);
        j = j + 1;
        assert(rest@ =~= cs@.subrange(i as int, j as int));
    }
    assert(rest@ =~= cs@.skip(i as int));
    let trimmed = trim_exec(&rest);
    if trimmed.len() == 0 {
        return Err(ShaderSourceError::EmptyShader);
    }
    Ok(string_of(&rest))
}

/// The shader source that a file's bytes hold: they must be UTF-8, then
/// `source_from_text` applies.
pub fn shader_source(bytes: &[u8]) -> (r: Result<String, ShaderSourceError>)
    ensures
        match r {
            Ok(s) => source_of_text(utf8_text(bytes@)) == Ok::<Seq<char>, ShaderSourceError>(s@),
            Err(e) => source_of_text(utf8_text(bytes@)) == Err::<Seq<char>, ShaderSourceError>(e),
        },
{
    let decoded = decode_utf8(bytes);
    match &decoded {
        Some(s) => source_from_text(Some(s.as_str())),
        None => source_from_text(None),
    }
}

} // verus!
