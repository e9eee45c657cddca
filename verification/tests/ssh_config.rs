use wezterm_core::config_map::ConfigMap;
use wezterm_core::ssh_config::{Config, HostOptions};
use wezterm_core::ssh_env::LocalHost;
use wezterm_core::ssh_parse::ParsedConfigFile;
use wezterm_core::ssh_pattern::{Context, Criteria, Pattern};

fn map_of(pairs: &[(&str, &str)]) -> ConfigMap {
    let mut m = ConfigMap::new();
    for (k, v) in pairs {
        m.insert(k.to_string(), v.to_string());
    }
    m
}

#[test]
fn parse_keepalive() {
    let mut config = Config::new();
    config.add_config_string(
        r#"
    Host foo
        ServerAliveInterval 60
        "#,
    );
    let mut fake_env = ConfigMap::new();
    fake_env.insert("HOME".to_string(), "/home/me".to_string());
    fake_env.insert("USER".to_string(), "me".to_string());
    config.assign_environment(fake_env);

    let opts = config.for_host("foo");
    assert_eq!(
opts,
map_of(&[
    ("hostname", "foo"),
    ("identityfile", "/home/me/.ssh/id_dsa /home/me/.ssh/id_ecdsa /home/me/.ssh/id_ed25519 /home/me/.ssh/id_rsa"),
    ("port", "22"),
    ("serveraliveinterval", "60"),
    ("user", "me"),
    ("userknownhostsfile", "/home/me/.ssh/known_hosts /home/me/.ssh/known_hosts2"),
])
);
}

#[test]
fn parse_proxy_command_tokens() {
    let mut config = Config::new();
    config.add_config_string(
        r#"
    Host foo
        ProxyCommand /usr/bin/corp-ssh-helper -dst_username=%r %h %p
        Port 2222
        "#,
    );
    let mut fake_env = ConfigMap::new();
    fake_env.insert("HOME".to_string(), "/home/me".to_string());
    fake_env.insert("USER".to_string(), "me".to_string());
    config.assign_environment(fake_env);

    let opts = config.for_host("foo");
    assert_eq!(
opts,
map_of(&[
    ("hostname", "foo"),
    ("identityfile", "/home/me/.ssh/id_dsa /home/me/.ssh/id_ecdsa /home/me/.ssh/id_ed25519 /home/me/.ssh/id_rsa"),
    ("port", "2222"),
    ("proxycommand", "/usr/bin/corp-ssh-helper -dst_username=me foo 2222"),
    ("user", "me"),
    ("userknownhostsfile", "/home/me/.ssh/known_hosts /home/me/.ssh/known_hosts2"),
])
);
}

#[test]
fn parse_proxy_command() {
    let text = r#"
    Host foo
        ProxyCommand /usr/bin/ssh-proxy-helper -oX=Y host 22
        "#;
    let mut config = Config::new();
    config.add_config_string(text);

    let parsed = ParsedConfigFile::parse(text, None);
    assert_eq!(parsed.options, map_of(&[]));
    assert_eq!(parsed.groups.len(), 1);
    let group = &parsed.groups[0];
    assert_eq!(
        group.criteria,
        vec![Criteria::Host(vec![Pattern {
            negated: false,
            pattern: "^foo$".to_string(),
            original: "foo".to_string(),
            is_literal: true,
        }])]
    );
    assert_eq!(group.context, Context::FirstPass);
    assert_eq!(
        group.options,
        map_of(&[("proxycommand", "/usr/bin/ssh-proxy-helper -oX=Y host 22")])
    );
    assert!(group.identity_files.is_empty());
    assert!(parsed.loaded_files.is_empty());
    assert!(parsed.identity_files.is_empty());
    assert_eq!(config.enumerate_hosts(), vec!["foo".to_string()]);
}

#[test]
fn misc_tokens() {
    let mut config = Config::new();

    let mut fake_env = ConfigMap::new();
    fake_env.insert("HOME".to_string(), "/home/me".to_string());
    fake_env.insert("USER".to_string(), "me".to_string());
    fake_env.insert("WEZTERM_SSH_UID".to_string(), "1000".to_string());
    config.assign_environment(fake_env);
    config.assign_uid("1000".to_string());

    config.add_config_string(
        r#"
    Host target-host
        LocalCommand C=%C d=%d h=%h i=%i L=%L l=%L n=%n p=%p r=%r T=%T u=%u
        "#,
    );

    let local = LocalHost {
        home_dir: None,
        hostname: "localhost".to_string(),
    };
    let opts = config.for_host_on("target-host", &local);
    assert_eq!(
opts,
map_of(&[
    ("hostname", "target-host"),
    ("identityfile", "/home/me/.ssh/id_dsa /home/me/.ssh/id_ecdsa /home/me/.ssh/id_ed25519 /home/me/.ssh/id_rsa"),
    ("localcommand", "C=8de28522efb92214d9c442ea0402863e34d095a4006467ad9136a48e930870ea d=/home/me h=target-host i=1000 L=localhost l=localhost n=target-host p=22 r=me T=NONE u=me"),
    ("port", "22"),
    ("user", "me"),
    ("userknownhostsfile", "/home/me/.ssh/known_hosts /home/me/.ssh/known_hosts2"),
])
);
}

#[test]
fn parse_user() {
    let mut config = Config::new();

    let mut fake_env = ConfigMap::new();
    fake_env.insert("HOME".to_string(), "/home/me".to_string());
    fake_env.insert("USER".to_string(), "me".to_string());
    config.assign_environment(fake_env);

    config.add_config_string(
        r#"
    Host foo
        HostName 10.0.0.1
        User foo
        IdentityFile "%d/.ssh/id_pub.dsa"
        "#,
    );

    let opts = config.for_host("foo");
    assert_eq!(
opts,
map_of(&[
    ("hostname", "10.0.0.1"),
    ("identityfile", "/home/me/.ssh/id_pub.dsa"),
    ("port", "22"),
    ("user", "foo"),
    ("userknownhostsfile", "/home/me/.ssh/known_hosts /home/me/.ssh/known_hosts2"),
])
);
}

#[test]
fn hostname_expansion() {
    let mut config = Config::new();

    let mut fake_env = ConfigMap::new();
    fake_env.insert("HOME".to_string(), "/home/me".to_string());
    fake_env.insert("USER".to_string(), "me".to_string());
    config.assign_environment(fake_env);

    config.add_config_string(
        r#"
    Host foo0 foo1 foo2
        HostName server-%h
        "#,
    );

    let opts = config.for_host("foo0");
    assert_eq!(
opts,
map_of(&[
    ("hostname", "server-foo0"),
    ("identityfile", "/home/me/.ssh/id_dsa /home/me/.ssh/id_ecdsa /home/me/.ssh/id_ed25519 /home/me/.ssh/id_rsa"),
    ("port", "22"),
    ("user", "me"),
    ("userknownhostsfile", "/home/me/.ssh/known_hosts /home/me/.ssh/known_hosts2"),
])
);

    let opts = config.for_host("foo1");
    assert_eq!(
opts,
map_of(&[
    ("hostname", "server-foo1"),
    ("identityfile", "/home/me/.ssh/id_dsa /home/me/.ssh/id_ecdsa /home/me/.ssh/id_ed25519 /home/me/.ssh/id_rsa"),
    ("port", "22"),
    ("user", "me"),
    ("userknownhostsfile", "/home/me/.ssh/known_hosts /home/me/.ssh/known_hosts2"),
])
);

    let opts = config.for_host("foo2");
    assert_eq!(
opts,
map_of(&[
    ("hostname", "server-foo2"),
    ("identityfile", "/home/me/.ssh/id_dsa /home/me/.ssh/id_ecdsa /home/me/.ssh/id_ed25519 /home/me/.ssh/id_rsa"),
    ("port", "22"),
    ("user", "me"),
    ("userknownhostsfile", "/home/me/.ssh/known_hosts /home/me/.ssh/known_hosts2"),
])
);
}

#[test]
fn userknownhostsfile_expands_host_token() {
    let mut config = Config::new();

    let mut fake_env = ConfigMap::new();
    fake_env.insert("HOME".to_string(), "/home/me".to_string());
    fake_env.insert("USER".to_string(), "me".to_string());
    config.assign_environment(fake_env);

    config.add_config_string(
        r#"
    Host example.com
        UserKnownHostsFile ~/.ssh/known_hosts.%h
        "#,
    );

    let opts = config.for_host("example.com");
    let value = opts
        .get("userknownhostsfile")
        .expect("userknownhostsfile should be set");
    assert!(
        value.contains("example.com"),
        "expected %h to expand to example.com, got {:?}",
        value
    );
    assert!(
        !value.contains("%h"),
        "expected %h token to be expanded, got {:?}",
        value
    );
}

#[test]
fn parse_proxy_command_hostname_expansion() {
    let mut config = Config::new();

    let mut fake_env = ConfigMap::new();
    fake_env.insert("HOME".to_string(), "/home/me".to_string());
    fake_env.insert("USER".to_string(), "me".to_string());
    config.assign_environment(fake_env);

    config.add_config_string(
        r#"
    Host foo
        HostName server-%h
        ProxyCommand nc -x localhost:1080 %h %p
        "#,
    );

    let opts = config.for_host("foo");
    assert_eq!(
opts,
map_of(&[
    ("hostname", "server-foo"),
    ("identityfile", "/home/me/.ssh/id_dsa /home/me/.ssh/id_ecdsa /home/me/.ssh/id_ed25519 /home/me/.ssh/id_rsa"),
    ("port", "22"),
    ("proxycommand", "nc -x localhost:1080 server-foo 22"),
    ("user", "me"),
    ("userknownhostsfile", "/home/me/.ssh/known_hosts /home/me/.ssh/known_hosts2"),
])
);
}

#[test]
fn multiple_identityfile() {
    let mut config = Config::new();

    let mut fake_env = ConfigMap::new();
    fake_env.insert("HOME".to_string(), "/home/me".to_string());
    fake_env.insert("USER".to_string(), "me".to_string());
    config.assign_environment(fake_env);

    config.add_config_string(
        r#"
    Host foo
        HostName 10.0.0.1
        User foo
        IdentityFile "~/.ssh/id_pub.dsa"
        IdentityFile "~/.ssh/id_pub.rsa"
        "#,
    );

    let opts = config.for_host("foo");
    assert_eq!(
opts,
map_of(&[
    ("hostname", "10.0.0.1"),
    ("identityfile", "/home/me/.ssh/id_pub.dsa /home/me/.ssh/id_pub.rsa"),
    ("port", "22"),
    ("user", "foo"),
    ("userknownhostsfile", "/home/me/.ssh/known_hosts /home/me/.ssh/known_hosts2"),
])
);
}

#[test]
fn sub_tilde() {
    let mut config = Config::new();

    let mut fake_env = ConfigMap::new();
    fake_env.insert("HOME".to_string(), "/home/me".to_string());
    fake_env.insert("USER".to_string(), "me".to_string());
    config.assign_environment(fake_env);

    config.add_config_string(
        r#"
    Host foo
        HostName 10.0.0.1
        User foo
        IdentityFile "~/.ssh/id_pub.dsa"
        "#,
    );

    let opts = config.for_host("foo");
    assert_eq!(
opts,
map_of(&[
    ("hostname", "10.0.0.1"),
    ("identityfile", "/home/me/.ssh/id_pub.dsa"),
    ("port", "22"),
    ("user", "foo"),
    ("userknownhostsfile", "/home/me/.ssh/known_hosts /home/me/.ssh/known_hosts2"),
])
);
}

#[test]
fn parse_match() {
    let mut config = Config::new();

    let mut fake_env = ConfigMap::new();
    fake_env.insert("HOME".to_string(), "/home/me".to_string());
    fake_env.insert("USER".to_string(), "me".to_string());
    config.assign_environment(fake_env);

    config.add_config_string(
        r#"
    # I am a comment
    Something first
    # the prior Something takes precedence
    Something ignored
    Match Host 192.168.1.8,wopr
        FowardAgent yes
        IdentityFile "%d/.ssh/id_pub.dsa"

    Match Host !a.b,*.b User fred
        ForwardAgent no
        IdentityAgent "${HOME}/.ssh/agent"

    Match Host !a.b,*.b User me
        ForwardAgent no
        IdentityAgent "${HOME}/.ssh/agent-me"

    Host *
        Something  else
        "#,
    );

    assert_eq!(
config.enumerate_hosts(),
vec!["192.168.1.8".to_string(), "wopr".to_string()]
);

    let opts = config.for_host("random");
    assert_eq!(
opts,
map_of(&[
    ("hostname", "random"),
    ("identityfile", "/home/me/.ssh/id_dsa /home/me/.ssh/id_ecdsa /home/me/.ssh/id_ed25519 /home/me/.ssh/id_rsa"),
    ("port", "22"),
    ("something", "first"),
    ("user", "me"),
    ("userknownhostsfile", "/home/me/.ssh/known_hosts /home/me/.ssh/known_hosts2"),
])
);

    let opts = config.for_host("192.168.1.8");
    assert_eq!(
opts,
map_of(&[
    ("fowardagent", "yes"),
    ("hostname", "192.168.1.8"),
    ("identityfile", "/home/me/.ssh/id_pub.dsa"),
    ("port", "22"),
    ("something", "first"),
    ("user", "me"),
    ("userknownhostsfile", "/home/me/.ssh/known_hosts /home/me/.ssh/known_hosts2"),
])
);

    let opts = config.for_host("a.b");
    assert_eq!(
opts,
map_of(&[
    ("hostname", "a.b"),
    ("identityfile", "/home/me/.ssh/id_dsa /home/me/.ssh/id_ecdsa /home/me/.ssh/id_ed25519 /home/me/.ssh/id_rsa"),
    ("port", "22"),
    ("something", "first"),
    ("user", "me"),
    ("userknownhostsfile", "/home/me/.ssh/known_hosts /home/me/.ssh/known_hosts2"),
])
);

    let opts = config.for_host("b.b");
    assert_eq!(
opts,
map_of(&[
    ("forwardagent", "no"),
    ("hostname", "b.b"),
    ("identityagent", "/home/me/.ssh/agent-me"),
    ("identityfile", "/home/me/.ssh/id_dsa /home/me/.ssh/id_ecdsa /home/me/.ssh/id_ed25519 /home/me/.ssh/id_rsa"),
    ("port", "22"),
    ("something", "first"),
    ("user", "me"),
    ("userknownhostsfile", "/home/me/.ssh/known_hosts /home/me/.ssh/known_hosts2"),
])
);

    let mut fake_env = ConfigMap::new();
    fake_env.insert("HOME".to_string(), "/home/fred".to_string());
    fake_env.insert("USER".to_string(), "fred".to_string());
    config.assign_environment(fake_env);

    let opts = config.for_host("b.b");
    assert_eq!(
opts,
map_of(&[
    ("forwardagent", "no"),
    ("hostname", "b.b"),
    ("identityagent", "/home/fred/.ssh/agent"),
    ("identityfile", "/home/fred/.ssh/id_dsa /home/fred/.ssh/id_ecdsa /home/fred/.ssh/id_ed25519 /home/fred/.ssh/id_rsa"),
    ("port", "22"),
    ("something", "first"),
    ("user", "fred"),
    ("userknownhostsfile", "/home/fred/.ssh/known_hosts /home/fred/.ssh/known_hosts2"),
])
);
}

#[test]
fn parse_simple() {
    let mut config = Config::new();

    let mut fake_env = ConfigMap::new();
    fake_env.insert("HOME".to_string(), "/home/me".to_string());
    fake_env.insert("USER".to_string(), "me".to_string());
    config.assign_environment(fake_env);

    config.add_config_string(
        r#"
    # I am a comment
    Something first
    # the prior Something takes precedence
    Something ignored
    Host 192.168.1.8 wopr
        FowardAgent yes
        IdentityFile "%d/.ssh/id_pub.dsa"

    Host !a.b *.b
        ForwardAgent no
        IdentityAgent "${HOME}/.ssh/agent"

    Host *
        Something  else
        "#,
    );

    let opts = config.for_host("random");
    assert_eq!(
opts,
map_of(&[
    ("hostname", "random"),
    ("identityfile", "/home/me/.ssh/id_dsa /home/me/.ssh/id_ecdsa /home/me/.ssh/id_ed25519 /home/me/.ssh/id_rsa"),
    ("port", "22"),
    ("something", "first"),
    ("user", "me"),
    ("userknownhostsfile", "/home/me/.ssh/known_hosts /home/me/.ssh/known_hosts2"),
])
);

    let opts = config.for_host("192.168.1.8");
    assert_eq!(
opts,
map_of(&[
    ("fowardagent", "yes"),
    ("hostname", "192.168.1.8"),
    ("identityfile", "/home/me/.ssh/id_pub.dsa"),
    ("port", "22"),
    ("something", "first"),
    ("user", "me"),
    ("userknownhostsfile", "/home/me/.ssh/known_hosts /home/me/.ssh/known_hosts2"),
])
);

    let opts = config.for_host("a.b");
    assert_eq!(
opts,
map_of(&[
    ("hostname", "a.b"),
    ("identityfile", "/home/me/.ssh/id_dsa /home/me/.ssh/id_ecdsa /home/me/.ssh/id_ed25519 /home/me/.ssh/id_rsa"),
    ("port", "22"),
    ("something", "first"),
    ("user", "me"),
    ("userknownhostsfile", "/home/me/.ssh/known_hosts /home/me/.ssh/known_hosts2"),
])
);

    let opts = config.for_host("b.b");
    assert_eq!(
opts,
map_of(&[
    ("forwardagent", "no"),
    ("hostname", "b.b"),
    ("identityagent", "/home/me/.ssh/agent"),
    ("identityfile", "/home/me/.ssh/id_dsa /home/me/.ssh/id_ecdsa /home/me/.ssh/id_ed25519 /home/me/.ssh/id_rsa"),
    ("port", "22"),
    ("something", "first"),
    ("user", "me"),
    ("userknownhostsfile", "/home/me/.ssh/known_hosts /home/me/.ssh/known_hosts2"),
])
);
}

fn characterize_parse(config_str: &str) -> ConfigMap {
    let mut config = Config::new();
    let mut fake_env = ConfigMap::new();
    fake_env.insert("HOME".to_string(), "/home/me".to_string());
    fake_env.insert("USER".to_string(), "me".to_string());
    config.assign_environment(fake_env);
    config.add_config_string(config_str);
    config.for_host("foo")
}

fn characterize_identity(config_str: &str) -> Option<String> {
    characterize_parse(config_str).get("identityfile").cloned()
}

#[test]
fn characterize_identity_file_simple() {
    let ident = characterize_identity(
        r#"
        Host foo
            IdentityFile /home/me/.ssh/id_rsa
        "#,
    );
    assert_eq!(ident, Some("/home/me/.ssh/id_rsa".to_string()));
}

#[test]
fn characterize_identity_file_quoted_space() {
    let ident = characterize_identity(
        r#"
        Host foo
            IdentityFile "/home/me/.ssh/path with space/id_rsa"
        "#,
    );
    assert_eq!(ident, Some("/home/me/.ssh/path with space/id_rsa".to_string()));
}

#[test]
fn characterize_identity_file_escaped_space() {
    let ident = characterize_identity(
        r#"
        Host foo
            IdentityFile /home/me/.ssh/path\ with\ space/id_rsa
        "#,
    );
    assert_eq!(ident, Some("/home/me/.ssh/path with space/id_rsa".to_string()));
}

#[test]
fn characterize_identity_file_single_quotes() {
    let ident = characterize_identity(
        r#"
        Host foo
            IdentityFile '/home/me/.ssh/single quoted'
        "#,
    );
    assert_eq!(ident, Some("/home/me/.ssh/single quoted".to_string()));
}

#[test]
fn characterize_identity_file_two_tokens_one_line() {
    let ident = characterize_identity(
        r#"
        Host foo
            IdentityFile /home/me/.ssh/first /home/me/.ssh/second
        "#,
    );
    assert_eq!(ident, Some("/home/me/.ssh/first".to_string()));
}

#[test]
fn characterize_identity_file_multi_line() {
    let ident = characterize_identity(
        r#"
        Host foo
            IdentityFile /home/me/.ssh/first
            IdentityFile /home/me/.ssh/second
            IdentityFile /home/me/.ssh/third
        "#,
    );
    assert_eq!(ident, Some("/home/me/.ssh/first /home/me/.ssh/second /home/me/.ssh/third".to_string()));
}

#[test]
fn characterize_identity_file_multi_mixed_quotes() {
    let ident = characterize_identity(
        r#"
        Host foo
            IdentityFile "/home/me/.ssh/first one"
            IdentityFile /home/me/.ssh/second
            IdentityFile /home/me/.ssh/third\ path
        "#,
    );
    assert_eq!(ident, Some("/home/me/.ssh/first one /home/me/.ssh/second /home/me/.ssh/third path".to_string()));
}

#[test]
fn characterize_identity_file_none_literal() {
    let ident = characterize_identity(
        r#"
        Host foo
            IdentityFile /home/me/.ssh/first
            IdentityFile none
            IdentityFile /home/me/.ssh/second
        "#,
    );
    assert_eq!(ident, Some("/home/me/.ssh/first none /home/me/.ssh/second".to_string()));
}

#[test]
fn characterize_identity_file_unbalanced_quote() {
    let ident = characterize_identity(
        r#"
        Host foo
            IdentityFile "/home/me/.ssh/unclosed
        "#,
    );
    assert_eq!(ident, Some("/home/me/.ssh/id_dsa /home/me/.ssh/id_ecdsa /home/me/.ssh/id_ed25519 /home/me/.ssh/id_rsa".to_string()));
}

#[test]
fn characterize_identity_file_trailing_comment() {
    let ident = characterize_identity(
        r#"
        Host foo
            IdentityFile /home/me/.ssh/id_rsa # trailing comment
        "#,
    );
    assert_eq!(ident, Some("/home/me/.ssh/id_rsa".to_string()));
}

#[test]
fn characterize_identities_only_mixed_case_value() {
    let opts = characterize_parse(
        r#"
        Host foo
            IdentitiesOnly YES
            IdentityFile /home/me/.ssh/id_rsa
        "#,
    );
    assert_eq!(opts.get("identitiesonly").cloned(), Some("YES".to_string()));
}

fn resolve_identity_file_paths(config_str: &str) -> Vec<String> {
    let mut config = Config::new();
    let mut fake_env = ConfigMap::new();
    fake_env.insert("HOME".to_string(), "/home/me".to_string());
    fake_env.insert("USER".to_string(), "me".to_string());
    config.assign_environment(fake_env);
    config.add_config_string(config_str);
    config
        .resolve_identity_files("foo")
        .into_iter()
        .map(|e| e.path)
        .collect()
}

#[test]
fn resolve_identity_files_default_list_when_empty() {
    let paths = resolve_identity_file_paths(
        r#"
        Host foo
            User me
        "#,
    );
    assert_eq!(
        paths,
        vec![
            "/home/me/.ssh/id_dsa".to_string(),
            "/home/me/.ssh/id_ecdsa".to_string(),
            "/home/me/.ssh/id_ed25519".to_string(),
            "/home/me/.ssh/id_rsa".to_string(),
        ]
    );
}

#[test]
fn resolve_identity_files_preserves_declaration_order() {
    let paths = resolve_identity_file_paths(
        r#"
        Host foo
            IdentityFile /home/me/.ssh/first
            IdentityFile /home/me/.ssh/second
            IdentityFile /home/me/.ssh/third
        "#,
    );
    assert_eq!(
        paths,
        vec![
            "/home/me/.ssh/first".to_string(),
            "/home/me/.ssh/second".to_string(),
            "/home/me/.ssh/third".to_string(),
        ]
    );
}

#[test]
fn resolve_identity_files_quoted_space_is_distinct_from_separator() {
    let paths = resolve_identity_file_paths(
        r#"
        Host foo
            IdentityFile "/home/me/.ssh/first one"
            IdentityFile /home/me/.ssh/second
            IdentityFile /home/me/.ssh/third\ path
        "#,
    );
    assert_eq!(
        paths,
        vec![
            "/home/me/.ssh/first one".to_string(),
            "/home/me/.ssh/second".to_string(),
            "/home/me/.ssh/third path".to_string(),
        ]
    );
}

#[test]
fn resolve_identity_files_none_is_literal_at_parser_layer() {
    let paths = resolve_identity_file_paths(
        r#"
        Host foo
            IdentityFile /home/me/.ssh/first
            IdentityFile none
            IdentityFile /home/me/.ssh/second
        "#,
    );
    assert_eq!(
        paths,
        vec![
            "/home/me/.ssh/first".to_string(),
            "none".to_string(),
            "/home/me/.ssh/second".to_string(),
        ]
    );
}

#[test]
fn resolve_identity_files_file_global_first_then_host_group() {
    let paths = resolve_identity_file_paths(
        r#"
        IdentityFile /home/me/.ssh/global_first

        Host foo
            IdentityFile /home/me/.ssh/host_second
        "#,
    );
    assert_eq!(
        paths,
        vec![
            "/home/me/.ssh/global_first".to_string(),
            "/home/me/.ssh/host_second".to_string(),
        ]
    );
}

#[test]
fn resolve_identity_files_only_matching_host_contributes() {
    let paths = resolve_identity_file_paths(
        r#"
        Host bar
            IdentityFile /home/me/.ssh/bar_only

        Host foo
            IdentityFile /home/me/.ssh/foo_only
        "#,
    );
    assert_eq!(paths, vec!["/home/me/.ssh/foo_only".to_string()]);
}

#[test]
fn host_options_push_identity_file_keeps_typed_list_and_flat_map_in_sync() {
    let mut host_options = HostOptions::default();
    host_options.push_identity_file("/home/me/.ssh/first");
    host_options.push_identity_file("/home/me/.ssh/second");

    assert_eq!(host_options.identity_files.len(), 2);
    assert_eq!(host_options.identity_files[0].path, "/home/me/.ssh/first");
    assert_eq!(host_options.identity_files[1].path, "/home/me/.ssh/second");

    assert_eq!(
        host_options.options.get("identityfile").cloned(),
        Some("/home/me/.ssh/first /home/me/.ssh/second".to_string())
    );
}

#[test]
fn resolve_identity_files_expands_tilde_in_path() {
    let paths = resolve_identity_file_paths(
        r#"
        Host foo
            IdentityFile ~/.ssh/id_rsa
        "#,
    );
    assert_eq!(paths, vec!["/home/me/.ssh/id_rsa".to_string()]);
}

#[test]
fn resolve_identity_files_expands_percent_d_to_home() {
    let paths = resolve_identity_file_paths(
        r#"
        Host foo
            IdentityFile %d/.ssh/id_rsa
        "#,
    );
    assert_eq!(paths, vec!["/home/me/.ssh/id_rsa".to_string()]);
}

#[test]
fn resolve_identity_files_expands_percent_h_and_percent_r() {
    let paths = resolve_identity_file_paths(
        r#"
        Host foo
            User someone
            IdentityFile /home/me/.ssh/%r@%h
        "#,
    );
    assert_eq!(paths, vec!["/home/me/.ssh/me@foo".to_string()]);
}

#[test]
fn resolve_identity_files_expansion_preserves_space_in_quoted_path() {
    let paths = resolve_identity_file_paths(
        r#"
        Host foo
            IdentityFile "%d/path with space/id_rsa"
        "#,
    );
    assert_eq!(paths, vec!["/home/me/path with space/id_rsa".to_string()]);
}

#[test]
fn host_options_push_identity_file_appends_onto_existing_legacy_value() {
    let mut host_options = HostOptions::default();
    host_options
        .options
        .insert("identityfile".to_string(), "/existing".to_string());
    host_options.push_identity_file("/new");

    assert_eq!(
        host_options.options.get("identityfile").cloned(),
        Some("/existing /new".to_string())
    );
    assert_eq!(host_options.identity_files.len(), 1);
    assert_eq!(host_options.identity_files[0].path, "/new");
}

#[test]
fn resolve_host_returns_options_and_identity_files_consistently() {
    let mut config = Config::new();
    let mut fake_env = ConfigMap::new();
    fake_env.insert("HOME".to_string(), "/home/me".to_string());
    fake_env.insert("USER".to_string(), "me".to_string());
    config.assign_environment(fake_env);
    config.add_config_string(
        r#"
        Host foo
            User someone
            IdentityFile /home/me/.ssh/custom_key
        "#,
    );

    let resolved = config.resolve_host("foo");

    assert_eq!(
        resolved.options.get("user").cloned(),
        Some("someone".to_string())
    );
    assert_eq!(
        resolved.options.get("hostname").cloned(),
        Some("foo".to_string())
    );
    assert_eq!(resolved.identity_files.len(), 1);
    assert_eq!(resolved.identity_files[0].path, "/home/me/.ssh/custom_key");
}

#[test]
fn from_configmap_splits_identityfile_on_whitespace_silently() {
    let mut map = ConfigMap::new();
    map.insert(
        "identityfile".to_string(),
        "/a/b /c/d with space".to_string(),
    );

    let host_options: HostOptions = map.into();

    let paths: Vec<String> = host_options
        .identity_files
        .iter()
        .map(|e| e.path.clone())
        .collect();

    assert_eq!(
        paths,
        vec![
            "/a/b".to_string(),
            "/c/d".to_string(),
            "with".to_string(),
            "space".to_string()
        ]
    );
}

#[test]
fn match_all_applies_identityfile_to_any_host() {
    let mut config = Config::new();
    let mut fake_env = ConfigMap::new();
    fake_env.insert("HOME".to_string(), "/home/me".to_string());
    fake_env.insert("USER".to_string(), "me".to_string());
    config.assign_environment(fake_env);
    config.add_config_string(
        r#"
        Match all
            IdentityFile /home/me/.ssh/universal_key
        "#,
    );

    let paths: Vec<String> = config
        .resolve_identity_files("any_host_at_all")
        .into_iter()
        .map(|e| e.path)
        .collect();
    assert_eq!(paths, vec!["/home/me/.ssh/universal_key".to_string()]);
}

#[test]
fn match_originalhost_applies_on_host_pattern() {
    let mut config = Config::new();
    let mut fake_env = ConfigMap::new();
    fake_env.insert("HOME".to_string(), "/home/me".to_string());
    fake_env.insert("USER".to_string(), "me".to_string());
    config.assign_environment(fake_env);
    config.add_config_string(
        r#"
        Match originalhost bar
            IdentityFile /home/me/.ssh/bar_key
        "#,
    );

    let matching: Vec<String> = config
        .resolve_identity_files("bar")
        .into_iter()
        .map(|e| e.path)
        .collect();
    assert_eq!(matching, vec!["/home/me/.ssh/bar_key".to_string()]);

    let non_matching: Vec<String> = config
        .resolve_identity_files("quux")
        .into_iter()
        .map(|e| e.path)
        .collect();
    assert!(!non_matching.contains(&"/home/me/.ssh/bar_key".to_string()));
}

#[test]
fn match_localuser_applies_on_local_user_pattern() {
    let mut config = Config::new();
    let mut fake_env = ConfigMap::new();
    fake_env.insert("HOME".to_string(), "/home/me".to_string());
    fake_env.insert("USER".to_string(), "me".to_string());
    config.assign_environment(fake_env);
    config.add_config_string(
        r#"
        Match localuser me
            IdentityFile /home/me/.ssh/me_key
        "#,
    );

    let paths: Vec<String> = config
        .resolve_identity_files("irrelevant_host")
        .into_iter()
        .map(|e| e.path)
        .collect();
    assert_eq!(paths, vec!["/home/me/.ssh/me_key".to_string()]);
}

#[test]
fn resolve_identity_files_expands_env_var_in_path() {
    let mut config = Config::new();
    let mut fake_env = ConfigMap::new();
    fake_env.insert("HOME".to_string(), "/home/me".to_string());
    fake_env.insert("USER".to_string(), "me".to_string());
    fake_env.insert("SSH_KEY_DIR".to_string(), "/custom/keys".to_string());
    config.assign_environment(fake_env);
    config.add_config_string(
        r#"
        Host foo
            IdentityFile ${SSH_KEY_DIR}/id_ed25519
        "#,
    );

    let paths: Vec<String> = config
        .resolve_identity_files("foo")
        .into_iter()
        .map(|e| e.path)
        .collect();
    assert_eq!(paths, vec!["/custom/keys/id_ed25519".to_string()]);
}
