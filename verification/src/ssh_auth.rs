//! The decisions of public-key authentication that rest on the
//! configuration: which identity files can sign, and which agent keys
//! may be offered.
use vstd::prelude::*;
use crate::config_map::ConfigMap;
use crate::ssh_env::map_get;
use crate::ssh_pattern::IdentityFileEntry;
use crate::text::{chars_of, ends_with, ends_with_exec, eq_ignore_ascii_case, eq_ignore_ascii_case_exec, trim, trim_exec};

verus! {

/// One question that a keyboard-interactive server asks.
#[derive(Debug)]
pub struct AuthenticationPrompt {
    pub prompt: String,
    pub echo: bool,
}

/// A path that names a public key (it ends in `.pub`) cannot sign.
pub open spec fn signable_path(path: Seq<char>) -> bool {
    !ends_with(path, ".pub"@)
}

/// Return `true` when an `IdentityFile` entry can be used to sign with:
/// it names a private key, not a public one (`.pub`).
pub fn is_identity_file_signable(entry: &IdentityFileEntry) -> (r: bool)
    ensures
        r == signable_path(entry.path@),
{
    !ends_with_exec(&chars_of(entry.path.as_str()), &chars_of(".pub"))
}

/// `IdentitiesOnly` is set to `yes` (ignoring ASCII case and
/// surrounding white space).
pub open spec fn identities_only(config: Map<Seq<char>, Seq<char>>) -> bool {
    match map_get(config, "identitiesonly"@) {
        Some(v) => eq_ignore_ascii_case(trim(v), "yes"@),
        None => false,
    }
}

/// The blobs that were found, in order.
pub open spec fn found_blobs(derived: Seq<Option<Vec<u8>>>) -> Seq<Seq<u8>>
    decreases derived.len(),
{
    if derived.len() == 0 {
        seq![]
    } else {
        found_blobs(derived.drop_last()) + match derived.last() {
            Some(b) => seq![b@],
            None => seq![],
        }
    }
}

/// The agent keys that may be offered, given the public key blob found
/// for each identity file (`None` where none could be read): `None`
/// (every agent key) unless `IdentitiesOnly` is `yes`, else the blobs
/// that were found, in the order of the identity files.
pub fn allowed_agent_key_blobs(config: &ConfigMap, derived: &[Option<Vec<u8>>]) -> (r: Option<
    Vec<Vec<u8>>,
>)
    ensures
        r is Some == identities_only(config@),
        r matches Some(v) ==> v@.map_values(|b: Vec<u8>| b@) == found_blobs(derived@),
{
    let on = match config.get("identitiesonly") {
        Some(v) => eq_ignore_ascii_case_exec(&trim_exec(&chars_of(v.as_str())), &chars_of("yes")),
        None => false,
    };
    if !on {
        return None;
    }
    let mut blobs: Vec<Vec<u8>> = Vec::new();
    let mut i: usize = 0;
    while i < derived.len()
        invariant
            i <= derived@.len(),
            blobs@.map_values(|b: Vec<u8>| b@) == found_blobs(derived@.take(i as int)),
        decreases derived.len() - i,
    {
        let ghost prev = blobs@;
        match &derived[i] {
            Some(b) => {
                let c = b.clone();
                blobs.push(c);
                assert(blobs@.map_values(|b: Vec<u8>| b@) =~= prev.map_values(|b: Vec<u8>| b@).push(
                    c@,
                ));
            },
            None => {},
        }
        assert(derived@.take(i + 1).drop_last() == derived@.take(i as int));
        i = i + 1;
    }
    assert(derived@.take(i as int) == derived@);
    Some(blobs)
}

} // verus!
