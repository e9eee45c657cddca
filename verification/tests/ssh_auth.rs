use wezterm_core::config_map::ConfigMap;
use wezterm_core::ssh_auth::{allowed_agent_key_blobs, is_identity_file_signable};
use wezterm_core::ssh_pattern::IdentityFileEntry;

#[test]
fn is_identity_file_signable_rejects_dotpub_path() {
    // An IdentityFile that names a `.pub` file is not signable;
    // downstream code must not pass it to `userauth_pubkey_file` or
    // `AddIdentity`.
    let entry = IdentityFileEntry {
        path: "/home/me/.ssh/id_rsa.pub".to_string(),
    };
    assert!(!is_identity_file_signable(&entry));
}

#[test]
fn is_identity_file_signable_accepts_private_key_path() {
    // The common case: private key path without a `.pub` suffix.
    let entry = IdentityFileEntry {
        path: "/home/me/.ssh/id_rsa".to_string(),
    };
    assert!(is_identity_file_signable(&entry));
}

#[test]
fn is_identity_file_signable_accepts_path_with_pub_in_middle() {
    // Only the `.pub` *suffix* disqualifies a path.
    let entry = IdentityFileEntry {
        path: "/home/me/.ssh/id_pub_key_2024".to_string(),
    };
    assert!(is_identity_file_signable(&entry));
}

#[test]
fn identities_only_not_set_allows_all() {
    // No identitiesonly in config → None (all keys allowed)
    let config = ConfigMap::new();
    assert!(allowed_agent_key_blobs(&config, &[]).is_none());
}

#[test]
fn identities_only_no_disables_filtering() {
    let mut config = ConfigMap::new();
    config.insert("identitiesonly".into(), "no".into());
    assert!(allowed_agent_key_blobs(&config, &[]).is_none());
}

#[test]
fn identities_only_value_is_case_insensitive() {
    for value in ["YES", "Yes", " yes ", "yEs"] {
        let mut config = ConfigMap::new();
        config.insert("identitiesonly".into(), value.into());
        assert!(
            allowed_agent_key_blobs(&config, &[]).is_some(),
            "value {:?} should enable filtering",
            value
        );
    }
}

#[test]
fn identities_only_yes_no_identity_file_returns_empty() {
    // IdentitiesOnly=yes but no IdentityFile → empty allowed list
    let mut config = ConfigMap::new();
    config.insert("identitiesonly".into(), "yes".into());

    let allowed = allowed_agent_key_blobs(&config, &[]);
    assert!(allowed.is_some());
    assert!(allowed.unwrap().is_empty());
}

#[test]
fn identities_only_yes_missing_key_files_returns_empty() {
    // IdentitiesOnly=yes with IdentityFile pointing to a nonexistent
    // path: no key material can be read for `/nonexistent/id_key`.
    let mut config = ConfigMap::new();
    config.insert("identitiesonly".into(), "yes".into());
    let derived: Vec<Option<Vec<u8>>> = vec![None];

    let allowed = allowed_agent_key_blobs(&config, &derived);
    assert!(allowed.is_some());
    assert!(allowed.unwrap().is_empty());
}

#[test]
fn identities_only_yes_keeps_found_blobs_in_order() {
    let mut config = ConfigMap::new();
    config.insert("identitiesonly".into(), "yes".into());
    let derived = vec![Some(vec![1u8, 2]), None, Some(vec![3u8])];
    let allowed = allowed_agent_key_blobs(&config, &derived).unwrap();
    assert_eq!(allowed, vec![vec![1u8, 2], vec![3u8]]);
}

#[test]
fn identities_only_other_values_allow_all() {
    for value in ["", "yess", "y", "true"] {
        let mut config = ConfigMap::new();
        config.insert("identitiesonly".into(), value.into());
        assert!(allowed_agent_key_blobs(&config, &[Some(vec![1u8])]).is_none());
    }
}

#[test]
fn signable_path_suffix_only() {
    let entry = IdentityFileEntry {
        path: ".pub".to_string(),
    };
    assert!(!is_identity_file_signable(&entry));
    let entry = IdentityFileEntry {
        path: "key.pubx".to_string(),
    };
    assert!(is_identity_file_signable(&entry));
}
