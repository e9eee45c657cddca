use wezterm_core::config_map::ConfigMap;
use wezterm_core::ssh_config::{Config, HostOptions};
use wezterm_core::ssh_env::LocalHost;
use wezterm_core::ssh_parse::ParsedConfigFile;
use wezterm_core::ssh_pattern::Pattern;

fn env_of(pairs: &[(&str, &str)]) -> ConfigMap {
    let mut m = ConfigMap::new();
    for (k, v) in pairs {
        m.insert(k.to_string(), v.to_string());
    }
    m
}

fn config_with(text: &str) -> Config {
    let mut config = Config::new();
    config.assign_environment(env_of(&[("HOME", "/home/me"), ("USER", "me")]));
    config.add_config_string(text);
    config
}

fn machine(hostname: &str) -> LocalHost {
    LocalHost {
        home_dir: Some("/machine/home".to_string()),
        hostname: hostname.to_string(),
    }
}

#[test]
fn set_option_wins_over_the_files() {
    let mut config = config_with("Host foo\n  User fromfile\n  Port 2200\n");
    config.set_option("User", "cli");
    let opts = config.for_host("foo");
    assert_eq!(opts.get("user").cloned(), Some("cli".to_string()));
    assert_eq!(opts.get("port").cloned(), Some("2200".to_string()));
}

#[test]
fn set_option_lowercases_the_key() {
    let mut config = config_with("");
    config.set_option("ServerAliveInterval", "30");
    let opts = config.for_host("any");
    assert_eq!(opts.get("serveraliveinterval").cloned(), Some("30".to_string()));
    assert_eq!(opts.get("ServerAliveInterval"), None);
}

#[test]
fn first_value_wins_across_stanzas_and_files() {
    let mut config = config_with("Host foo\n  Port 1\nHost *\n  Port 2\n  User star\n");
    config.add_config_string("Host *\n  Port 3\n  User second\n  Compression yes\n");
    let opts = config.for_host("foo");
    assert_eq!(opts.get("port").cloned(), Some("1".to_string()));
    assert_eq!(opts.get("user").cloned(), Some("star".to_string()));
    assert_eq!(opts.get("compression").cloned(), Some("yes".to_string()));
    let other = config.for_host("bar");
    assert_eq!(other.get("port").cloned(), Some("2".to_string()));
}

#[test]
fn options_before_any_stanza_come_first() {
    let config = config_with("Port 10\nHost foo\n  Port 20\n");
    assert_eq!(config.for_host("foo").get("port").cloned(), Some("10".to_string()));
}

#[test]
fn environment_references_need_two_name_characters() {
    let mut config = Config::new();
    config.assign_environment(env_of(&[
        ("HOME", "/home/me"),
        ("USER", "me"),
        ("A", "one"),
        ("AB", "two"),
    ]));
    config.add_config_string(
        "Host foo\n  IdentityAgent \"${A}/${AB}/${MISSING}/$AB/${1X}\"\n",
    );
    let opts = config.for_host("foo");
    assert_eq!(
        opts.get("identityagent").cloned(),
        Some("${A}/two/${MISSING}/$AB/${1X}".to_string())
    );
}

#[test]
fn percent_escapes_and_home_items() {
    let config = config_with("Host foo\n  ControlPath ~/ctl/%%h-%h\n  IdentityFile %d/a\n");
    let opts = config.for_host("foo");
    // `%%h` holds `%h` after its first `%`: tokens are replaced before
    // `%%` is turned into `%`.
    assert_eq!(opts.get("controlpath").cloned(), Some("/home/me/ctl/%foo-foo".to_string()));
    assert_eq!(opts.get("identityfile").cloned(), Some("/home/me/a".to_string()));
}

#[test]
fn local_host_tokens_drop_or_keep_the_domain() {
    let config = config_with("Host foo\n  LocalCommand %l %L\n");
    let opts = config.for_host_on("foo", &machine("box.example.com"));
    assert_eq!(opts.get("localcommand").cloned(), Some("box box.example.com".to_string()));
}

#[test]
fn uid_and_local_user_tokens() {
    let mut config = config_with("Host foo\n  ControlPath /tmp/%i-%u\n");
    config.assign_uid("501".to_string());
    let opts = config.for_host("foo");
    assert_eq!(opts.get("controlpath").cloned(), Some("/tmp/501-me".to_string()));
}

#[test]
fn connection_hash_in_flat_map_and_identity_list() {
    let mut config = config_with("Host target-host\n  IdentityFile /keys/%C\n");
    config.assign_uid("1000".to_string());
    let local = LocalHost {
        home_dir: None,
        hostname: "localhost".to_string(),
    };
    let resolved = config.resolve_host_on("target-host", &local);
    // The flat map hashes `%l%h%p%r%j` with the path tokens, which leave
    // `%j` alone; the identity list also turns `%j` into nothing.
    let flat = "8de28522efb92214d9c442ea0402863e34d095a4006467ad9136a48e930870ea";
    let typed = "fabc202dda3f2f6db142a44b6c503c9f68c0067640b8890ba424cdf2dcdb4f35";
    assert_eq!(resolved.identity_files.len(), 1);
    assert_eq!(resolved.identity_files[0].path, format!("/keys/{typed}"));
    assert_eq!(
        resolved.options.get("identityfile").cloned(),
        Some(format!("/keys/{flat}"))
    );
}

#[test]
fn home_comes_from_the_machine_without_an_assigned_home() {
    let mut config = Config::new();
    config.assign_environment(env_of(&[("USER", "me")]));
    config.add_config_string("Host foo\n  IdentityFile ~/k\n");
    let opts = config.for_host_on("foo", &machine("m"));
    assert_eq!(opts.get("identityfile").cloned(), Some("/machine/home/k".to_string()));
    assert_eq!(
        opts.get("userknownhostsfile").cloned(),
        Some("/machine/home/.ssh/known_hosts /machine/home/.ssh/known_hosts2".to_string())
    );
}

#[test]
fn no_home_means_no_path_defaults() {
    let mut config = Config::new();
    config.assign_environment(env_of(&[("USERNAME", "win")]));
    let local = LocalHost {
        home_dir: None,
        hostname: "m".to_string(),
    };
    let opts = config.for_host_on("h", &local);
    let mut expect = ConfigMap::new();
    expect.insert("hostname".to_string(), "h".to_string());
    expect.insert("port".to_string(), "22".to_string());
    expect.insert("user".to_string(), "win".to_string());
    assert_eq!(opts, expect);
    assert!(config.resolve_identity_files_on("h", &local).is_empty());
}

#[test]
fn unknown_user_without_user_variables() {
    let mut config = Config::new();
    config.assign_environment(ConfigMap::new());
    let opts = config.for_host_on("h", &machine("m"));
    assert_eq!(opts.get("user").cloned(), Some("unknown-user".to_string()));
}

#[test]
fn process_environment_is_used_when_none_is_assigned() {
    let mut config = Config::new();
    config.assign_process_environment(env_of(&[
        ("USER", "proc"),
        ("SSH_AUTH_SOCK", "/run/agent"),
    ]));
    let opts = config.for_host_on("h", &machine("m"));
    assert_eq!(opts.get("user").cloned(), Some("proc".to_string()));
    assert_eq!(opts.get("identityagent").cloned(), Some("/run/agent".to_string()));
}

#[test]
fn later_passes_and_exec_criteria() {
    let config = config_with(
        "Match canonical host foo\n  Port 1\nMatch exec \"false\" host foo\n  Port 2\n",
    );
    assert_eq!(config.for_host("foo").get("port").cloned(), Some("2".to_string()));
}

#[test]
fn a_line_with_an_unbalanced_quote_is_dropped() {
    let config = config_with("Host foo\n  User \"broken\n  Port 99\n");
    let opts = config.for_host("foo");
    assert_eq!(opts.get("user").cloned(), Some("me".to_string()));
    assert_eq!(opts.get("port").cloned(), Some("99".to_string()));
}

#[test]
fn enumerate_hosts_literal_names_once() {
    let config = config_with("Host foo bar *.x !baz foo\nMatch host qux,foo,q?x user me\n");
    assert_eq!(
        config.enumerate_hosts(),
        vec!["foo".to_string(), "bar".to_string(), "qux".to_string()]
    );
}

#[test]
fn loaded_config_files_each_once() {
    let mut config = Config::new();
    let mut first = ParsedConfigFile::new(Some("/etc/ssh/ssh_config".to_string()));
    first.record_loaded_file("/etc/ssh/ssh_config.d/a.conf".to_string());
    config.add_parsed_file(first);
    config.add_parsed_file(ParsedConfigFile::new(Some("/etc/ssh/ssh_config".to_string())));
    config.add_config_string("Host x\n");
    assert_eq!(
        config.loaded_config_files(),
        vec![
            "/etc/ssh/ssh_config".to_string(),
            "/etc/ssh/ssh_config.d/a.conf".to_string()
        ]
    );
}

#[test]
fn include_lines_are_handed_back() {
    let mut file = ParsedConfigFile::new(None);
    let tokens = file.parse_line("Include ~/.ssh/conf.d/* \"/etc/with space\"");
    assert_eq!(
        tokens,
        Some(vec!["~/.ssh/conf.d/*".to_string(), "/etc/with space".to_string()])
    );
    assert_eq!(file.parse_line("Host a"), None);
    assert_eq!(file.groups.len(), 1);
}

#[test]
fn pushed_identity_paths_stay_in_step_and_round_trip() {
    let mut options = HostOptions::default();
    for p in ["/a", "/b", "/c"] {
        options.push_identity_file(p);
    }
    assert_eq!(options.options.get("identityfile").cloned(), Some("/a /b /c".to_string()));
    let paths: Vec<String> = options.identity_files.iter().map(|e| e.path.clone()).collect();
    let back: HostOptions = options.options.clone().into();
    let back_paths: Vec<String> = back.identity_files.iter().map(|e| e.path.clone()).collect();
    assert_eq!(back_paths, paths);
}

#[test]
fn resolve_host_agrees_with_for_host() {
    let config = config_with("Host foo\n  HostName real.example\n  IdentityFile ~/.ssh/%h_key\n");
    let local = machine("m");
    let resolved = config.resolve_host_on("foo", &local);
    assert_eq!(resolved.options, config.for_host_on("foo", &local));
    assert_eq!(resolved.identity_files.len(), 1);
    assert_eq!(resolved.identity_files[0].path, "/home/me/.ssh/real.example_key");
}

#[test]
fn config_map_keeps_keys_in_order() {
    let mut m = ConfigMap::new();
    assert_eq!(m.insert("b".to_string(), "1".to_string()), None);
    assert_eq!(m.insert("a".to_string(), "2".to_string()), None);
    assert_eq!(m.insert("b".to_string(), "3".to_string()), Some("1".to_string()));
    assert_eq!(m.keys(), vec!["a".to_string(), "b".to_string()]);
    assert_eq!(m.len(), 2);
    assert!(m.contains_key("a"));
    assert_eq!(m.get("b").cloned(), Some("3".to_string()));
    assert_eq!(m.get("c"), None);
}

#[test]
fn patterns_escape_regex_characters() {
    let p = Pattern::new("a.b*", true);
    assert_eq!(p.pattern, "^a\\.b.*$");
    assert_eq!(p.original, "a.b*");
    assert!(!p.is_literal);
    assert!(p.negated);
    let exact = vec![Pattern::new("a.b", false)];
    assert!(Pattern::match_group("a.b", &exact));
    assert!(!Pattern::match_group("axb", &exact));
    let list = vec![
        Pattern::new("*.internal", true),
        Pattern::new("*", false),
    ];
    assert!(!Pattern::match_group("db.internal", &list));
    assert!(Pattern::match_group("example.com", &list));
    assert!(!Pattern::match_group("x", &Vec::new()));
}

#[test]
fn keyword_ended_by_a_wide_space_is_read() {
    let f = ParsedConfigFile::parse("Host\u{a0}foo\n  User\u{3000}bob\n", None);
    assert_eq!(f.groups.len(), 1);
    assert_eq!(f.groups[0].options.get("user").cloned(), Some("bob".to_string()));
}

#[test]
fn identity_list_and_option_agree_in_file_and_stanza() {
    let f = ParsedConfigFile::parse(
        "IdentityFile /a\nIdentityFile /b\nHost x\n  IdentityFile /c\n",
        None,
    );
    let top: Vec<String> = f.identity_files.iter().map(|e| e.path.clone()).collect();
    assert_eq!(f.options.get("identityfile").cloned(), Some(top.join(" ")));
    let g: Vec<String> = f.groups[0].identity_files.iter().map(|e| e.path.clone()).collect();
    assert_eq!(f.groups[0].options.get("identityfile").cloned(), Some(g.join(" ")));
}

#[test]
fn enumerate_hosts_in_first_occurrence_order() {
    let mut config = Config::new();
    config.add_config_string("Host b a\nHost c b\nHost x*\nHost !d e\n");
    assert_eq!(config.enumerate_hosts(), vec!["b", "a", "c", "e"]);
}

#[test]
fn loaded_files_compare_as_paths() {
    let mut config = Config::new();
    config.add_parsed_file(ParsedConfigFile::parse("", Some("/etc/ssh/a".to_string())));
    config.add_parsed_file(ParsedConfigFile::parse("", Some("/etc/ssh//a/".to_string())));
    config.add_parsed_file(ParsedConfigFile::parse("", Some("/etc/ssh/b".to_string())));
    assert_eq!(config.loaded_config_files(), vec!["/etc/ssh/a", "/etc/ssh/b"]);
}
