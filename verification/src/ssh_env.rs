//! What resolving a host reads besides the configuration: the local
//! machine, SHA-256 digests written in hexadecimal, and `${NAME}`
//! references to environment variables.
use vstd::prelude::*;
use vstd::utf8::encode_utf8;
use crate::config_map::ConfigMap;
use crate::text::{chars_of, string_of, sub_chars};

verus! {

// ---------------------------------------------------------------------
// Outside crates
// ---------------------------------------------------------------------
/// The lower-case hexadecimal digit for `n` (below sixteen).
pub open spec fn hex_digit(n: int) -> char {
    if n < 10 {
        (48 + n) as char
    } else {
        (87 + n) as char
    }
}

/// Two lower-case hexadecimal digits for each byte, high nibble first.
pub open spec fn hex_spec(bytes: Seq<u8>) -> Seq<char>
    decreases bytes.len(),
{
    if bytes.len() == 0 {
        seq![]
    } else {
        seq![hex_digit(bytes[0] as int / 16), hex_digit(bytes[0] as int % 16)] + hex_spec(
            bytes.drop_first(),
        )
    }
}

/// Trusted: `hex::encode` (hex 0.4) writes each byte as two characters
/// of `0123456789abcdef`, the high nibble first.
#[verifier::external_body]
fn hex_encode(data: &[u8]) -> (r: String)
    ensures
        r@ == hex_spec(data@),
{
    hex::encode(data)
}

/// The SHA-256 digest of a byte string.
pub uninterp spec fn sha256_digest(data: Seq<u8>) -> Seq<u8>;

/// Trusted: `sha2::Sha256::digest` (sha2 0.10) hashes the bytes; the
/// 32-byte digest depends on them alone and is named `sha256_digest`.
#[verifier::external_body]
fn sha256(data: &[u8]) -> (r: Vec<u8>)
    ensures
        r@ == sha256_digest(data@),
        r@.len() == 32,
{
    <sha2::Sha256 as sha2::Digest>::digest(data).to_vec()
}

/// The hexadecimal SHA-256 digest of the UTF-8 bytes of a text.
pub open spec fn hash_text(s: Seq<char>) -> Seq<char> {
    hex_spec(sha256_digest(encode_utf8(s)))
}

/// The hexadecimal SHA-256 digest of `s`.
pub(crate) fn hash_text_exec(s: &str) -> (r: String)
    ensures
        r@ == hash_text(s@),
{
    let digest = sha256(s.as_bytes());
    hex_encode(digest.as_slice())
}

/// Trusted: `dirs_next::home_dir` (dirs-next 2.0) finds the current
/// user's home directory (from `HOME`, else the password database); the
/// path is kept when it is valid UTF-8. What it finds depends on the
/// process and the machine, so nothing is claimed of it.
#[verifier::external_body]
fn system_home_dir() -> (r: Option<String>) {
    match dirs_next::home_dir() {
        Some(p) => match p.to_str() {
            Some(s) => Some(s.to_string()),
            None => None,
        },
        None => None,
    }
}

/// Trusted: `gethostname::gethostname` (gethostname 0.4) returns the
/// machine's host name, decoded lossily here. It depends on the machine,
/// so nothing is claimed of it.
#[verifier::external_body]
fn system_hostname() -> (r: String) {
    gethostname::gethostname().to_string_lossy().to_string()
}

// ---------------------------------------------------------------------
// `${NAME}` references
// ---------------------------------------------------------------------
/// A character that may start a variable name.
pub open spec fn is_name_start(c: char) -> bool {
    ('a' <= c && c <= 'z') || ('A' <= c && c <= 'Z') || c == '_'
}

/// A character that may stand in a variable name.
pub open spec fn is_name_char(c: char) -> bool {
    is_name_start(c) || ('0' <= c && c <= '9')
}

/// The number of name characters of `s` from position `i` on.
pub open spec fn name_run(s: Seq<char>, i: int) -> nat
    decreases s.len() - i,
{
    if 0 <= i < s.len() && is_name_char(s[i]) {
        1 + name_run(s, i + 1)
    } else {
        0
    }
}

/// If `s` starts with a reference `${NAME}` (a name of at least two
/// characters, the first not a digit), the length of the name.
pub open spec fn env_ref_at(s: Seq<char>) -> Option<nat> {
    if s.len() > 2 && s[0] == '$' && s[1] == '{' && is_name_start(s[2]) {
        let n = name_run(s, 2);
        if n >= 2 && 2 + n < s.len() && s[2 + n as int] == '}' {
            Some(n)
        } else {
            None
        }
    } else {
        None
    }
}

/// `s` with each `${NAME}` reference, taken from the left, replaced by
/// the value of `NAME` in `env`, or kept where `env` has no such name.
pub open spec fn env_expand(s: Seq<char>, env: Map<Seq<char>, Seq<char>>) -> Seq<char>
    decreases s.len(),
{
    if s.len() == 0 {
        seq![]
    } else {
        match env_ref_at(s) {
            Some(n) => {
                let name = s.subrange(2, 2 + n as int);
                (if env.contains_key(name) {
                    env[name]
                } else {
                    s.take(3 + n as int)
                }) + env_expand(s.skip(3 + n as int), env)
            },
            None => seq![s[0]] + env_expand(s.drop_first(), env),
        }
    }
}

/// The regular expression that finds a `${NAME}` reference.
pub open spec fn env_ref_regex() -> Seq<char> {
    "\\$\\{([a-zA-Z_][a-zA-Z_0-9]+)\\}"@
}

/// What replaces one reference: the value of the name, or the reference
/// itself.
pub fn env_ref_replacement(env: &ConfigMap, name: &str, whole: &str) -> (r: String)
    ensures
        r@ == (if env@.contains_key(name@) {
            env@[name@]
        } else {
            whole@
        }),
{
    match env.get(name) {
        Some(v) => v.clone(),
        None => String::from_str(whole),
    }
}

/// Trusted: `regex::Regex::replace_all` (regex 1.13) with the pattern
/// `env_ref_regex`, whose closure hands each match to
/// `env_ref_replacement`. The regex crate documents leftmost-first,
/// non-overlapping matching; for this pattern a match is `${`, a name
/// (greedy, and only a whole run of name characters can be followed by
/// `}`) and `}`, so the result is `env_expand`. The pattern compiles, so
/// `Regex::new` does not fail.
#[verifier::external_body]
pub(crate) fn replace_env_refs(pattern: &str, text: &str, env: &ConfigMap) -> (r: String)
    requires
        pattern@ == env_ref_regex(),
    ensures
        r@ == env_expand(text@, env@),
{
    let re = regex::Regex::new(pattern).unwrap();
    re.replace_all(text, |caps: &regex::Captures| env_ref_replacement(env, &caps[1], &caps[0]))
        .to_string()
}

// ---------------------------------------------------------------------
// The local machine
// ---------------------------------------------------------------------
/// What the local machine says of itself when a host is resolved.
pub struct LocalHost {
    /// The home directory, as `dirs_next::home_dir` finds it.
    pub home_dir: Option<String>,
    /// The machine's host name, as `gethostname` gives it.
    pub hostname: String,
}

/// The local machine as values.
pub struct LocalHostView {
    pub home_dir: Option<Seq<char>>,
    pub hostname: Seq<char>,
}

/// The view of an optional string.
pub open spec fn opt_view(o: Option<String>) -> Option<Seq<char>> {
    match o {
        Some(s) => Some(s@),
        None => None,
    }
}

impl View for LocalHost {
    type V = LocalHostView;

    open spec fn view(&self) -> LocalHostView {
        LocalHostView { home_dir: opt_view(self.home_dir), hostname: self.hostname@ }
    }
}

impl LocalHost {
    /// Asks the machine for its home directory and host name.
    pub fn probe() -> (r: Self) {
        LocalHost { home_dir: system_home_dir(), hostname: system_hostname() }
    }
}

/// The value of key `k` of `m`, if present.
pub open spec fn map_get(m: Map<Seq<char>, Seq<char>>, k: Seq<char>) -> Option<Seq<char>> {
    if m.contains_key(k) {
        Some(m[k])
    } else {
        None
    }
}

/// The value of key `k`, copied.
pub(crate) fn get_owned(m: &ConfigMap, k: &str) -> (r: Option<String>)
    ensures
        opt_view(r) == map_get(m@, k@),
{
    match m.get(k) {
        Some(v) => Some(v.clone()),
        None => None,
    }
}

/// `s` up to its first `.`.
pub open spec fn before_dot(s: Seq<char>) -> Seq<char>
    decreases s.len(),
{
    if s.len() == 0 || s[0] == '.' {
        seq![]
    } else {
        seq![s[0]] + before_dot(s.drop_first())
    }
}

/// The local host name, with its domain or without.
pub open spec fn local_host_name(h: LocalHostView, include_domain: bool) -> Seq<char> {
    if include_domain {
        h.hostname
    } else {
        before_dot(h.hostname)
    }
}

/// The local host name, with its domain or without.
pub(crate) fn resolve_local_host(local: &LocalHost, include_domain: bool) -> (r: String)
    ensures
        r@ == local_host_name(local@, include_domain),
{
    if include_domain {
        return local.hostname.clone();
    }
    let cs = chars_of(local.hostname.as_str());
    let mut i: usize = 0;
    assert(cs@.take(0) + cs@.skip(0) =~= cs@.skip(0));
    assert(cs@.skip(0) =~= cs@);
    while i < cs.len() && cs[i] != '.'
        invariant
            i <= cs.len(),
            cs@ == local@.hostname,
            before_dot(cs@) == cs@.take(i as int) + before_dot(cs@.skip(i as int)),
        decreases cs.len() - i,
    {
        proof {
            let rest = cs@.skip(i as int);
            assert(rest[0] == cs@[i as int]);
            assert(rest.drop_first() == cs@.skip(i + 1));
            assert(cs@.take(i + 1) == cs@.take(i as int) + seq![cs@[i as int]]);
        }
        i = i + 1;
    }
    proof {
        assert(cs@.skip(0) == cs@);
        assert(before_dot(cs@.skip(i as int)) == Seq::<char>::empty());
    }
    string_of(&sub_chars(&cs, 0, i))
}

/// Hexadecimal text is two characters for each byte (so the `%C`
/// digest is 64 characters).
pub proof fn law_hex_length(bytes: Seq<u8>)
    ensures
        hex_spec(bytes).len() == 2 * bytes.len(),
    decreases bytes.len(),
{
    if bytes.len() > 0 {
        law_hex_length(bytes.drop_first());
    }
}

} // verus!
