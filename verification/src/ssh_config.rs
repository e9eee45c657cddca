//! Resolving the options of a host: the parsed files, the options given
//! on the command line, the environment and the local machine together.
use vstd::prelude::*;
use crate::config_map::ConfigMap;
use crate::ssh_env::{
    before_dot, env_expand, get_owned, hash_text, hash_text_exec, local_host_name, map_get,
    opt_view, replace_env_refs, resolve_local_host, LocalHost, LocalHostView,
};
use crate::ssh_parse::{FileView, ParsedConfigFile};
use crate::ssh_pattern::{
    entry_paths, group_applies, Context, CriteriaView, GroupView, IdentityFileEntry, Pattern,
    PatternView,
};
use crate::ssh_pattern::Criteria;
use crate::text::{
    chars_of, contains, contains_exec, join, join_space, replace, replace_exec, starts_with,
    starts_with_exec, str_eq, string_of, sub_chars, views, words, words_exec,
};

verus! {

// ---------------------------------------------------------------------
// The configuration
// ---------------------------------------------------------------------
/// A context for resolving configuration values: the parsed files, the
/// options given on the command line, the `%` tokens, an environment
/// that stands in for the process one, and what the process knows of
/// itself (its environment and user id), which the caller hands in.
#[derive(Debug, Clone)]
pub struct Config {
    config_files: Vec<ParsedConfigFile>,
    options: ConfigMap,
    tokens: ConfigMap,
    environment: Option<ConfigMap>,
    process_environment: ConfigMap,
    uid: String,
}

/// A configuration as values.
pub struct ConfigView {
    pub files: Seq<FileView>,
    pub options: Map<Seq<char>, Seq<char>>,
    pub tokens: Map<Seq<char>, Seq<char>>,
    pub environment: Option<Map<Seq<char>, Seq<char>>>,
    pub process_environment: Map<Seq<char>, Seq<char>>,
    pub uid: Seq<char>,
}

/// The views of a list of parsed files.
pub open spec fn file_views(fs: Seq<ParsedConfigFile>) -> Seq<FileView> {
    fs.map_values(|f: ParsedConfigFile| f@)
}

/// The view of an optional map.
pub open spec fn opt_map_view(o: Option<ConfigMap>) -> Option<Map<Seq<char>, Seq<char>>> {
    match o {
        Some(m) => Some(m@),
        None => None,
    }
}

impl View for Config {
    type V = ConfigView;

    closed spec fn view(&self) -> ConfigView {
        ConfigView {
            files: file_views(self.config_files@),
            options: self.options@,
            tokens: self.tokens@,
            environment: opt_map_view(self.environment),
            process_environment: self.process_environment@,
            uid: self.uid@,
        }
    }
}

/// The environment that names are looked up in: the assigned one if
/// there is one, else the process environment.
pub open spec fn env_of(c: ConfigView) -> Map<Seq<char>, Seq<char>> {
    match c.environment {
        Some(e) => e,
        None => c.process_environment,
    }
}

/// The value of an environment variable.
pub open spec fn resolve_env(c: ConfigView, name: Seq<char>) -> Option<Seq<char>> {
    map_get(env_of(c), name)
}

/// The local user: `USER`, else `USERNAME`, else `unknown-user`.
pub open spec fn local_user(c: ConfigView) -> Seq<char> {
    match resolve_env(c, "USER"@) {
        Some(u) => u,
        None => match resolve_env(c, "USERNAME"@) {
            Some(u) => u,
            None => "unknown-user"@,
        },
    }
}

/// The home directory: `HOME` of the assigned environment, else what
/// the machine says.
pub open spec fn home_of(c: ConfigView, h: LocalHostView) -> Option<Seq<char>> {
    match c.environment {
        Some(e) => if e.contains_key("HOME"@) {
            Some(e["HOME"@])
        } else {
            h.home_dir
        },
        None => h.home_dir,
    }
}

impl Config {
    /// The environment that names are looked up in.
    fn env(&self) -> (r: &ConfigMap)
        ensures
            r@ == env_of(self@),
    {
        match &self.environment {
            Some(e) => e,
            None => &self.process_environment,
        }
    }

    /// Resolve an environment variable.
    fn resolve_env(&self, name: &str) -> (r: Option<String>)
        ensures
            opt_view(r) == resolve_env(self@, name@),
    {
        get_owned(self.env(), name)
    }

    /// The local user name.
    fn resolve_local_user(&self) -> (r: String)
        ensures
            r@ == local_user(self@),
    {
        match self.resolve_env("USER") {
            Some(u) => u,
            None => match self.resolve_env("USERNAME") {
                Some(u) => u,
                None => String::from_str("unknown-user"),
            },
        }
    }

    /// Resolve the home directory: `HOME` in the assigned environment
    /// comes before what the machine says.
    fn resolve_home(&self, local: &LocalHost) -> (r: Option<String>)
        ensures
            opt_view(r) == home_of(self@, local@),
    {
        if let Some(env) = &self.environment {
            if let Some(home) = env.get("HOME") {
                return Some(home.clone());
            }
        }
        match &local.home_dir {
            Some(h) => Some(h.clone()),
            None => None,
        }
    }
}

// ---------------------------------------------------------------------
// `%` tokens
// ---------------------------------------------------------------------
/// The tokens of path-like options.
pub open spec fn path_tokens() -> Seq<Seq<char>> {
    seq!["%C"@, "%d"@, "%h"@, "%i"@, "%L"@, "%l"@, "%n"@, "%p"@, "%r"@, "%u"@]
}

/// The tokens of `LocalCommand`.
pub open spec fn local_command_tokens() -> Seq<Seq<char>> {
    seq!["%C"@, "%d"@, "%h"@, "%i"@, "%k"@, "%L"@, "%l"@, "%n"@, "%p"@, "%r"@, "%T"@, "%u"@]
}

/// The tokens of `ProxyCommand`.
pub open spec fn proxy_command_tokens() -> Seq<Seq<char>> {
    seq!["%h"@, "%n"@, "%p"@, "%r"@]
}

/// The tokens of `HostName`.
pub open spec fn hostname_tokens() -> Seq<Seq<char>> {
    seq!["%h"@]
}

/// The tokens that the value of option `k` is expanded with.
pub open spec fn tokens_for(k: Seq<char>) -> Option<Seq<Seq<char>>> {
    if k == "certificatefile"@ || k == "controlpath"@ || k == "identityagent"@ || k
        == "identityfile"@ || k == "localforward"@ || k == "remotecommand"@ || k
        == "remoteforward"@ || k == "userknownhostsfile"@ {
        Some(path_tokens())
    } else if k == "hostname"@ {
        Some(hostname_tokens())
    } else if k == "localcommand"@ {
        Some(local_command_tokens())
    } else if k == "proxycommand"@ {
        Some(proxy_command_tokens())
    } else {
        None
    }
}

/// Whether `${NAME}` references in the value of option `k` are expanded.
pub open spec fn expands_environment(k: Seq<char>) -> bool {
    k == "certificatefile"@ || k == "controlpath"@ || k == "identityagent"@ || k
        == "identityfile"@ || k == "userknownhostsfile"@ || k == "localforward"@ || k
        == "remoteforward"@
}

/// No token is empty.
pub open spec fn tokens_nonempty(ts: Seq<Seq<char>>) -> bool {
    forall|i: int| 0 <= i < ts.len() ==> #[trigger] ts[i].len() > 0
}

/// One white-space separated item of a value, with `~/` at its start or
/// `%d` in it standing for the home directory.
pub open spec fn home_item(item: Seq<char>, home: Seq<char>) -> Seq<char> {
    if starts_with(item, "~/"@) {
        home + item.skip(1)
    } else {
        replace(item, "%d"@, home)
    }
}

/// A value split on white space, each item given the home directory,
/// joined again with single spaces.
pub open spec fn expand_home_words(value: Seq<char>, home: Seq<char>) -> Seq<char> {
    join(words(value).map_values(|it: Seq<char>| home_item(it, home)), seq![' '])
}

/// The value after token `t` is expanded, for every token but `%C`: the
/// token map comes first, then what the configuration and the machine
/// say; `%k` and tokens of no meaning here are left alone.
pub open spec fn expand_step(
    c: ConfigView,
    h: LocalHostView,
    value: Seq<char>,
    t: Seq<char>,
    tm: Map<Seq<char>, Seq<char>>,
) -> Seq<char> {
    if tm.contains_key(t) {
        replace(value, t, tm[t])
    } else if t == "%i"@ {
        replace(value, t, c.uid)
    } else if t == "%u"@ {
        replace(value, t, local_user(c))
    } else if t == "%l"@ {
        replace(value, t, local_host_name(h, false))
    } else if t == "%L"@ {
        replace(value, t, local_host_name(h, true))
    } else if t == "%d"@ {
        match home_of(c, h) {
            Some(home) => expand_home_words(value, home),
            None => value,
        }
    } else if t == "%j"@ {
        replace(value, t, seq![])
    } else if t == "%T"@ {
        replace(value, t, "NONE"@)
    } else {
        value
    }
}

/// The value after the tokens `ts` from position `i` on are expanded in
/// order, then `%%` turned into `%`. `%C` stands for the digest of
/// `%l%h%p%r%j` expanded with the same tokens; `allow_c` is false inside
/// that inner expansion, where `%C` is left alone. (Every token list
/// that holds `%C` holds it first, so the inner expansion meets it while
/// the text is still `%l%h%p%r%j`, with no `%C` in it.)
pub open spec fn expand_tokens_from(
    c: ConfigView,
    h: LocalHostView,
    value: Seq<char>,
    ts: Seq<Seq<char>>,
    i: int,
    tm: Map<Seq<char>, Seq<char>>,
    allow_c: bool,
) -> Seq<char>
    decreases (if allow_c {
        1int
    } else {
        0int
    }), ts.len() - i,
{
    if i < 0 || i >= ts.len() {
        replace(value, "%%"@, "%"@)
    } else {
        let t = ts[i];
        let next = if !tm.contains_key(t) && t == "%C"@ && allow_c && contains(value, "%C"@) {
            replace(
                value,
                "%C"@,
                hash_text(expand_tokens_from(c, h, "%l%h%p%r%j"@, ts, 0, tm, false)),
            )
        } else {
            expand_step(c, h, value, t, tm)
        };
        expand_tokens_from(c, h, next, ts, i + 1, tm, allow_c)
    }
}

/// The value with the tokens `ts` expanded.
pub open spec fn expand_tokens(
    c: ConfigView,
    h: LocalHostView,
    value: Seq<char>,
    ts: Seq<Seq<char>>,
    tm: Map<Seq<char>, Seq<char>>,
) -> Seq<char> {
    expand_tokens_from(c, h, value, ts, 0, tm, true)
}

/// Appends a copy of `s` to a list of strings.
fn push_str(v: &mut Vec<String>, s: &str)
    ensures
        views(final(v)@) == views(old(v)@).push(s@),
{
    v.push(String::from_str(s));
    assert(views(v@) =~= views(old(v)@).push(s@));
}

proof fn lemma_token_lists()
    ensures
        tokens_nonempty(path_tokens()),
        tokens_nonempty(local_command_tokens()),
        tokens_nonempty(proxy_command_tokens()),
        tokens_nonempty(hostname_tokens()),
        "%%"@.len() > 0,
        "%C"@.len() > 0,
        "%d"@.len() > 0,
        "~/"@.len() == 2,
{
    reveal_strlit("%C");
    reveal_strlit("%d");
    reveal_strlit("%h");
    reveal_strlit("%i");
    reveal_strlit("%k");
    reveal_strlit("%L");
    reveal_strlit("%l");
    reveal_strlit("%n");
    reveal_strlit("%p");
    reveal_strlit("%r");
    reveal_strlit("%T");
    reveal_strlit("%u");
    reveal_strlit("%%");
    reveal_strlit("~/");
}

/// The tokens of path-like options.
fn path_token_list() -> (r: Vec<String>)
    ensures
        views(r@) == path_tokens(),
{
    let mut v: Vec<String> = Vec::new();
    push_str(&mut v, "%C");
    push_str(&mut v, "%d");
    push_str(&mut v, "%h");
    push_str(&mut v, "%i");
    push_str(&mut v, "%L");
    push_str(&mut v, "%l");
    push_str(&mut v, "%n");
    push_str(&mut v, "%p");
    push_str(&mut v, "%r");
    push_str(&mut v, "%u");
    assert(views(v@) =~= path_tokens());
    v
}

/// The tokens of `LocalCommand`.
fn local_command_token_list() -> (r: Vec<String>)
    ensures
        views(r@) == local_command_tokens(),
{
    let mut v: Vec<String> = Vec::new();
    push_str(&mut v, "%C");
    push_str(&mut v, "%d");
    push_str(&mut v, "%h");
    push_str(&mut v, "%i");
    push_str(&mut v, "%k");
    push_str(&mut v, "%L");
    push_str(&mut v, "%l");
    push_str(&mut v, "%n");
    push_str(&mut v, "%p");
    push_str(&mut v, "%r");
    push_str(&mut v, "%T");
    push_str(&mut v, "%u");
    assert(views(v@) =~= local_command_tokens());
    v
}

/// The tokens of `ProxyCommand`.
fn proxy_command_token_list() -> (r: Vec<String>)
    ensures
        views(r@) == proxy_command_tokens(),
{
    let mut v: Vec<String> = Vec::new();
    push_str(&mut v, "%h");
    push_str(&mut v, "%n");
    push_str(&mut v, "%p");
    push_str(&mut v, "%r");
    assert(views(v@) =~= proxy_command_tokens());
    v
}

/// The tokens of `HostName`.
fn hostname_token_list() -> (r: Vec<String>)
    ensures
        views(r@) == hostname_tokens(),
{
    let mut v: Vec<String> = Vec::new();
    push_str(&mut v, "%h");
    assert(views(v@) =~= hostname_tokens());
    v
}

/// A value split on white space, each item given the home directory,
/// joined again with single spaces.
fn expand_home_words_exec(value: &Vec<char>, home: &str) -> (r: Vec<char>)
    ensures
        r@ == expand_home_words(value@, home@),
{
    proof {
        lemma_token_lists();
    }
    let items = words_exec(value);
    let ghost iv = items@.map_values(|w: Vec<char>| w@);
    let hc = chars_of(home);
    let tilde = chars_of("~/");
    let pd = chars_of("%d");
    let mut out: Vec<Vec<char>> = Vec::new();
    let mut i: usize = 0;
    while i < items.len()
        invariant
            i <= items.len(),
            iv == items@.map_values(|w: Vec<char>| w@),
            iv == words(value@),
            hc@ == home@,
            tilde@ == "~/"@,
            pd@ == "%d"@,
            "~/"@.len() == 2,
            "%d"@.len() > 0,
            out@.map_values(|w: Vec<char>| w@) == iv.take(i as int).map_values(
                |it: Seq<char>| home_item(it, home@),
            ),
        decreases items.len() - i,
    {
        let it = &items[i];
        assert(it@ == iv[i as int]);
        let item = if starts_with_exec(it, &tilde) {
            let mut n = sub_chars(&hc, 0, hc.len());
            let tail = sub_chars(it, 1, it.len());
            proof {
                assert(hc@.subrange(0, hc@.len() as int) == hc@);
                assert(tail@ == it@.skip(1));
            }
            crate::text::append_chars(&mut n, &tail);
            n
        } else {
            replace_exec(it, &pd, &hc)
        };
        assert(item@ == home_item(iv[i as int], home@));
        let ghost prev = out@;
        out.push(item);
        proof {
            assert(out@.map_values(|w: Vec<char>| w@) =~= prev.map_values(|w: Vec<char>| w@).push(
                item@,
            ));
            assert(iv.take(i + 1).map_values(|it: Seq<char>| home_item(it, home@)) =~= iv.take(
                i as int,
            ).map_values(|it: Seq<char>| home_item(it, home@)).push(home_item(iv[i as int], home@)));
        }
        i = i + 1;
    }
    assert(iv.take(i as int) == iv);
    join_space(&out)
}

impl Config {
    /// The tokens that the value of option `key` is expanded with.
    fn should_expand_tokens(&self, key: &str) -> (r: Option<Vec<String>>)
        ensures
            match r {
                Some(v) => tokens_for(key@) == Some(views(v@)),
                None => tokens_for(key@) is None,
            },
    {
        if str_eq(key, "certificatefile") || str_eq(key, "controlpath") || str_eq(
            key,
            "identityagent",
        ) || str_eq(key, "identityfile") || str_eq(key, "localforward") || str_eq(
            key,
            "remotecommand",
        ) || str_eq(key, "remoteforward") || str_eq(key, "userknownhostsfile") {
            Some(path_token_list())
        } else if str_eq(key, "hostname") {
            Some(hostname_token_list())
        } else if str_eq(key, "localcommand") {
            Some(local_command_token_list())
        } else if str_eq(key, "proxycommand") {
            Some(proxy_command_token_list())
        } else {
            None
        }
    }

    /// Whether `${NAME}` references in the value of option `key` are
    /// expanded.
    fn should_expand_environment(&self, key: &str) -> (r: bool)
        ensures
            r == expands_environment(key@),
    {
        str_eq(key, "certificatefile") || str_eq(key, "controlpath") || str_eq(key, "identityagent")
            || str_eq(key, "identityfile") || str_eq(key, "userknownhostsfile") || str_eq(
            key,
            "localforward",
        ) || str_eq(key, "remoteforward")
    }

    /// The value after one token (other than `%C`) is expanded.
    fn expand_step(&self, local: &LocalHost, value: &Vec<char>, t: &Vec<char>, tm: &ConfigMap) -> (r:
        Vec<char>)
        requires
            t@.len() > 0,
        ensures
            r@ == expand_step(self@, local@, value@, t@, tm@),
    {
        let ts = string_of(t);
        if let Some(v) = tm.get(ts.as_str()) {
            return replace_exec(value, t, &chars_of(v.as_str()));
        }
        if str_eq(ts.as_str(), "%i") {
            replace_exec(value, t, &chars_of(self.uid.as_str()))
        } else if str_eq(ts.as_str(), "%u") {
            let u = self.resolve_local_user();
            replace_exec(value, t, &chars_of(u.as_str()))
        } else if str_eq(ts.as_str(), "%l") {
            let n = resolve_local_host(local, false);
            replace_exec(value, t, &chars_of(n.as_str()))
        } else if str_eq(ts.as_str(), "%L") {
            let n = resolve_local_host(local, true);
            replace_exec(value, t, &chars_of(n.as_str()))
        } else if str_eq(ts.as_str(), "%d") {
            match self.resolve_home(local) {
                Some(home) => expand_home_words_exec(value, home.as_str()),
                None => sub_chars(value, 0, value.len()),
            }
        } else if str_eq(ts.as_str(), "%j") {
            let empty: Vec<char> = Vec::new();
            replace_exec(value, t, &empty)
        } else if str_eq(ts.as_str(), "%T") {
            replace_exec(value, t, &chars_of("NONE"))
        } else {
            sub_chars(value, 0, value.len())
        }
    }

    /// Perform token substitution: each token of `tokens` in order, then
    /// `%%` to `%`.
    fn expand_tokens(
        &self,
        local: &LocalHost,
        value: &Vec<char>,
        tokens: &Vec<String>,
        tm: &ConfigMap,
        allow_c: bool,
    ) -> (r: Vec<char>)
        requires
            tokens_nonempty(views(tokens@)),
        ensures
            r@ == expand_tokens_from(self@, local@, value@, views(tokens@), 0, tm@, allow_c),
        decreases (if allow_c {
            1int
        } else {
            0int
        }),
    {
        proof {
            lemma_token_lists();
        }
        let ghost ts = views(tokens@);
        let mut v = sub_chars(value, 0, value.len());
        assert(v@ == value@);
        let pc = chars_of("%C");
        let mut i: usize = 0;
        while i < tokens.len()
            invariant
                i <= tokens.len(),
                ts == views(tokens@),
                tokens_nonempty(ts),
                pc@ == "%C"@,
                "%C"@.len() > 0,
                expand_tokens_from(self@, local@, v@, ts, i as int, tm@, allow_c)
                    == expand_tokens_from(self@, local@, value@, ts, 0, tm@, allow_c),
            decreases tokens.len() - i,
        {
            let t = chars_of(tokens[i].as_str());
            assert(t@ == ts[i as int]);
            assert(t@.len() > 0);
            let is_c = !tm.contains_key(tokens[i].as_str()) && str_eq(tokens[i].as_str(), "%C")
                && allow_c && contains_exec(&v, &pc);
            let next = if is_c {
                let inner = self.expand_tokens(local, &chars_of("%l%h%p%r%j"), tokens, tm, false);
                let hashed = hash_text_exec(string_of(&inner).as_str());
                replace_exec(&v, &pc, &chars_of(hashed.as_str()))
            } else {
                self.expand_step(local, &v, &t, tm)
            };
            v = next;
            i = i + 1;
        }
        proof {
            reveal_strlit("%%");
            reveal_strlit("%");
        }
        replace_exec(&v, &chars_of("%%"), &chars_of("%"))
    }
}

// ---------------------------------------------------------------------
// Which options apply
// ---------------------------------------------------------------------
/// Adds to `target` every option of `from` that it lacks; an option it
/// has keeps its value.
fn fill_missing(target: &mut ConfigMap, from: &ConfigMap)
    ensures
        final(target)@ == from@.union_prefer_right(old(target)@),
{
    let keys = from.keys();
    let ghost kv = views(keys@);
    let ghost t0 = target@;
    let mut i: usize = 0;
    while i < keys.len()
        invariant
            i <= keys.len(),
            kv == views(keys@),
            forall|k: Seq<char>| from@.contains_key(k) <==> kv.contains(k),
            forall|k: Seq<char>|
                #![trigger target@.contains_key(k)]
                target@.contains_key(k) <==> (t0.contains_key(k) || (from@.contains_key(k)
                    && kv.take(i as int).contains(k))),
            forall|k: Seq<char>|
                #![trigger target@[k]]
                target@.contains_key(k) ==> target@[k] == (if t0.contains_key(k) {
                    t0[k]
                } else {
                    from@[k]
                }),
        decreases keys.len() - i,
    {
        let k = &keys[i];
        proof {
            assert(kv[i as int] == k@);
            assert(kv.take(i + 1) == kv.take(i as int).push(k@));
            assert(kv.contains(k@));
        }
        if !target.contains_key(k.as_str()) {
            match from.get(k.as_str()) {
                Some(v) => {
                    target.insert(k.clone(), v.clone());
                },
                None => {},
            }
        }
        proof {
            let a = kv.take(i as int);
            let b = kv.take(i + 1);
            assert forall|q: Seq<char>| b.contains(q) <==> (a.contains(q) || q == k@) by {
                if b.contains(q) {
                    let j = choose|j: int| 0 <= j < b.len() && #[trigger] b[j] == q;
                    if j < i {
                        assert(a[j] == q);
                    }
                }
                if a.contains(q) {
                    let j = choose|j: int| 0 <= j < a.len() && #[trigger] a[j] == q;
                    assert(b[j] == q);
                }
                if q == k@ {
                    assert(b[i as int] == q);
                }
            }
        }
        i = i + 1;
    }
    assert(kv.take(i as int) == kv);
    assert(target@ =~= from@.union_prefer_right(t0));
}

/// `target` after the stanzas `gs` that apply, in order, fill in the
/// options it lacks.
pub open spec fn groups_applied(
    gs: Seq<GroupView>,
    host: Seq<char>,
    user: Seq<char>,
    local_user: Seq<char>,
    context: Context,
    target: Map<Seq<char>, Seq<char>>,
) -> Map<Seq<char>, Seq<char>>
    decreases gs.len(),
{
    if gs.len() == 0 {
        target
    } else {
        let t = groups_applied(gs.drop_last(), host, user, local_user, context, target);
        if group_applies(gs.last(), host, user, local_user, context) {
            gs.last().options.union_prefer_right(t)
        } else {
            t
        }
    }
}

/// `target` after a file fills in the options it lacks: first the
/// options before any stanza, then those of each stanza that applies.
/// The first value of an option wins.
pub open spec fn file_applied(
    f: FileView,
    host: Seq<char>,
    user: Seq<char>,
    local_user: Seq<char>,
    context: Context,
    target: Map<Seq<char>, Seq<char>>,
) -> Map<Seq<char>, Seq<char>> {
    groups_applied(
        f.groups,
        host,
        user,
        local_user,
        context,
        f.options.union_prefer_right(target),
    )
}

/// `target` after the files `fs`, in order, fill in the options it
/// lacks (first pass).
pub open spec fn files_applied(
    fs: Seq<FileView>,
    host: Seq<char>,
    user: Seq<char>,
    local_user: Seq<char>,
    target: Map<Seq<char>, Seq<char>>,
) -> Map<Seq<char>, Seq<char>>
    decreases fs.len(),
{
    if fs.len() == 0 {
        target
    } else {
        file_applied(
            fs.last(),
            host,
            user,
            local_user,
            Context::FirstPass,
            files_applied(fs.drop_last(), host, user, local_user, target),
        )
    }
}

/// The `IdentityFile` entries of the stanzas `gs` that apply, in order.
pub open spec fn groups_identities(
    gs: Seq<GroupView>,
    host: Seq<char>,
    user: Seq<char>,
    local_user: Seq<char>,
    context: Context,
) -> Seq<Seq<char>>
    decreases gs.len(),
{
    if gs.len() == 0 {
        seq![]
    } else {
        groups_identities(gs.drop_last(), host, user, local_user, context) + (if group_applies(
            gs.last(),
            host,
            user,
            local_user,
            context,
        ) {
            gs.last().identity_files
        } else {
            seq![]
        })
    }
}

/// The `IdentityFile` entries of a file that apply: those before any
/// stanza, then those of each stanza that applies, in order.
pub open spec fn file_identities(
    f: FileView,
    host: Seq<char>,
    user: Seq<char>,
    local_user: Seq<char>,
    context: Context,
) -> Seq<Seq<char>> {
    f.identity_files + groups_identities(f.groups, host, user, local_user, context)
}

/// The `IdentityFile` entries of the files `fs` that apply, file by
/// file (first pass).
pub open spec fn files_identities(
    fs: Seq<FileView>,
    host: Seq<char>,
    user: Seq<char>,
    local_user: Seq<char>,
) -> Seq<Seq<char>>
    decreases fs.len(),
{
    if fs.len() == 0 {
        seq![]
    } else {
        files_identities(fs.drop_last(), host, user, local_user) + file_identities(
            fs.last(),
            host,
            user,
            local_user,
            Context::FirstPass,
        )
    }
}

/// Some stanza of the file applies only in a later pass.
pub open spec fn needs_reparse(f: FileView) -> bool {
    exists|i: int| 0 <= i < f.groups.len() && f.groups[i].context != Context::FirstPass
}

impl ParsedConfigFile {
    /// Fills in the options that `target` lacks from this file, for a
    /// host, user and local user in a pass: the first value wins. Says
    /// whether some stanza belongs to a later pass.
    pub fn apply_matches(
        &self,
        hostname: &str,
        user: &str,
        local_user: &str,
        context: Context,
        target: &mut ConfigMap,
    ) -> (r: bool)
        ensures
            final(target)@ == file_applied(self@, hostname@, user@, local_user@, context, old(target)@),
            r == needs_reparse(self@),
    {
        let mut reparse = false;
        fill_missing(target, &self.options);
        let ghost t1 = target@;
        let ghost gs = self@.groups;
        let mut i: usize = 0;
        while i < self.groups.len()
            invariant
                i <= self.groups.len(),
                gs == self@.groups,
                gs.len() == self.groups@.len(),
                target@ == groups_applied(gs.take(i as int), hostname@, user@, local_user@, context, t1),
                reparse == exists|j: int| 0 <= j < i && gs[j].context != Context::FirstPass,
            decreases self.groups.len() - i,
        {
            let group = &self.groups[i];
            assert(gs[i as int] == group@);
            if group.context != Context::FirstPass {
                reparse = true;
            }
            if group.is_match(hostname, user, local_user, context) {
                fill_missing(target, &group.options);
            }
            assert(gs.take(i + 1).drop_last() == gs.take(i as int));
            i = i + 1;
        }
        assert(gs.take(i as int) == gs);
        reparse
    }

    /// Appends onto `target` the `IdentityFile` entries of this file that
    /// apply: those before any stanza, then those of each stanza that
    /// applies, in order.
    pub fn collect_identity_files(
        &self,
        hostname: &str,
        user: &str,
        local_user: &str,
        context: Context,
        target: &mut Vec<IdentityFileEntry>,
    )
        ensures
            entry_paths(final(target)@) == entry_paths(old(target)@) + file_identities(
                self@,
                hostname@,
                user@,
                local_user@,
                context,
            ),
    {
        let ghost t0 = entry_paths(target@);
        let mut i: usize = 0;
        while i < self.identity_files.len()
            invariant
                i <= self.identity_files.len(),
                entry_paths(target@) == t0 + entry_paths(self.identity_files@).take(i as int),
            decreases self.identity_files.len() - i,
        {
            let ghost prev = target@;
            let e = IdentityFileEntry::new(self.identity_files[i].path.clone());
            target.push(e);
            assert(entry_paths(target@) =~= entry_paths(prev).push(e.path@));
            assert(entry_paths(self.identity_files@).take(i + 1) =~= entry_paths(
                self.identity_files@,
            ).take(i as int).push(self.identity_files@[i as int].path@));
            i = i + 1;
        }
        assert(entry_paths(self.identity_files@).take(i as int) == self@.identity_files);
        let ghost t1 = entry_paths(target@);
        let ghost gs = self@.groups;
        let mut g: usize = 0;
        while g < self.groups.len()
            invariant
                g <= self.groups.len(),
                gs == self@.groups,
                gs.len() == self.groups@.len(),
                entry_paths(target@) == t1 + groups_identities(
                    gs.take(g as int),
                    hostname@,
                    user@,
                    local_user@,
                    context,
                ),
            decreases self.groups.len() - g,
        {
            let group = &self.groups[g];
            assert(gs[g as int] == group@);
            let ghost before = entry_paths(target@);
            if group.is_match(hostname, user, local_user, context) {
                let mut j: usize = 0;
                while j < group.identity_files.len()
                    invariant
                        j <= group.identity_files.len(),
                        entry_paths(target@) == before + entry_paths(group.identity_files@).take(
                            j as int,
                        ),
                    decreases group.identity_files.len() - j,
                {
                    let ghost prev = target@;
                    let e = IdentityFileEntry::new(group.identity_files[j].path.clone());
                    target.push(e);
                    assert(entry_paths(target@) =~= entry_paths(prev).push(e.path@));
                    assert(entry_paths(group.identity_files@).take(j + 1) =~= entry_paths(
                        group.identity_files@,
                    ).take(j as int).push(group.identity_files@[j as int].path@));
                    j = j + 1;
                }
                assert(entry_paths(group.identity_files@).take(j as int) == group@.identity_files);
            } else {
                assert(entry_paths(target@) =~= before + Seq::<Seq<char>>::empty());
            }
            assert(gs.take(g + 1).drop_last() == gs.take(g as int));
            g = g + 1;
        }
        assert(gs.take(g as int) == gs);
    }
}

// ---------------------------------------------------------------------
// The options of a host
// ---------------------------------------------------------------------
/// The options that apply to a host before expansion: the options set
/// on the command line, then what each file fills in (the first value
/// of an option wins). The user and local user are the local user.
pub open spec fn matched_options(c: ConfigView, host: Seq<char>) -> Map<Seq<char>, Seq<char>> {
    files_applied(c.files, host, local_user(c), local_user(c), c.options)
}

/// The `port` option, or 22.
pub open spec fn port_or_default(m: Map<Seq<char>, Seq<char>>) -> Seq<char> {
    match map_get(m, "port"@) {
        Some(p) => p,
        None => "22"@,
    }
}

/// The host name to connect to: the `HostName` option with `%h` standing
/// for the given host, or the given host.
pub open spec fn resolved_hostname(c: ConfigView, h: LocalHostView, host: Seq<char>) -> Seq<
    char,
> {
    let m = matched_options(c, host);
    if m.contains_key("hostname"@) {
        expand_tokens(c, h, m["hostname"@], hostname_tokens(), c.tokens.insert("%h"@, host))
    } else {
        host
    }
}

/// The matched options, `hostname` set to the resolved host name.
pub open spec fn options_with_hostname(c: ConfigView, h: LocalHostView, host: Seq<char>) -> Map<
    Seq<char>,
    Seq<char>,
> {
    matched_options(c, host).insert("hostname"@, resolved_hostname(c, h, host))
}

/// The token map for a host: the assigned tokens, with `%h` the resolved
/// host name, `%n` the host as given, `%r` the local user and `%p` the
/// port (22 unless set).
pub open spec fn host_token_map(c: ConfigView, h: LocalHostView, host: Seq<char>) -> Map<
    Seq<char>,
    Seq<char>,
> {
    c.tokens.insert("%h"@, resolved_hostname(c, h, host)).insert("%n"@, host).insert(
        "%r"@,
        local_user(c),
    ).insert("%p"@, port_or_default(options_with_hostname(c, h, host)))
}

/// An option's value with its tokens, then its `${NAME}` references,
/// expanded as the option calls for.
pub open spec fn expand_value(
    c: ConfigView,
    h: LocalHostView,
    k: Seq<char>,
    v: Seq<char>,
    tm: Map<Seq<char>, Seq<char>>,
) -> Seq<char> {
    let v1 = match tokens_for(k) {
        Some(ts) => expand_tokens(c, h, v, ts, tm),
        None => v,
    };
    if expands_environment(k) {
        env_expand(v1, env_of(c))
    } else {
        v1
    }
}

/// The options of a host, each value expanded.
pub open spec fn expanded_options(c: ConfigView, h: LocalHostView, host: Seq<char>) -> Map<
    Seq<char>,
    Seq<char>,
> {
    let m = options_with_hostname(c, h, host);
    let tm = host_token_map(c, h, host);
    Map::new(|k: Seq<char>| m.contains_key(k), |k: Seq<char>| expand_value(c, h, k, m[k], tm))
}

/// `m` with `k` set to `v` unless it has `k`.
pub open spec fn with_default(m: Map<Seq<char>, Seq<char>>, k: Seq<char>, v: Seq<char>) -> Map<
    Seq<char>,
    Seq<char>,
> {
    if m.contains_key(k) {
        m
    } else {
        m.insert(k, v)
    }
}

/// The default `UserKnownHostsFile`.
pub open spec fn known_hosts_default(home: Seq<char>) -> Seq<char> {
    home + "/.ssh/known_hosts "@ + home + "/.ssh/known_hosts2"@
}

/// The OpenSSH default identities, in the order they are tried.
pub open spec fn identity_defaults(home: Seq<char>) -> Seq<Seq<char>> {
    seq![
        home + "/.ssh/id_dsa"@,
        home + "/.ssh/id_ecdsa"@,
        home + "/.ssh/id_ed25519"@,
        home + "/.ssh/id_rsa"@,
    ]
}

/// `m` with `port` (22), `user` (the local user), `userknownhostsfile`
/// and `identityfile` (under the home directory, when it is known) and
/// `identityagent` (`SSH_AUTH_SOCK`, when set) filled in where missing.
pub open spec fn with_host_defaults(
    c: ConfigView,
    h: LocalHostView,
    m: Map<Seq<char>, Seq<char>>,
) -> Map<Seq<char>, Seq<char>> {
    let m1 = with_default(with_default(m, "port"@, "22"@), "user"@, local_user(c));
    let m2 = match home_of(c, h) {
        Some(home) => with_default(
            with_default(m1, "userknownhostsfile"@, known_hosts_default(home)),
            "identityfile"@,
            join(identity_defaults(home), seq![' ']),
        ),
        None => m1,
    };
    match resolve_env(c, "SSH_AUTH_SOCK"@) {
        Some(sock) => with_default(m2, "identityagent"@, sock),
        None => m2,
    }
}

/// The options of a host as `Config::for_host` resolves them: the
/// expanded options, with the defaults filled in.
pub open spec fn host_config(c: ConfigView, h: LocalHostView, host: Seq<char>) -> Map<
    Seq<char>,
    Seq<char>,
> {
    with_host_defaults(c, h, expanded_options(c, h, host))
}

/// The default identity paths under `home`.
fn identity_default_paths(home: &str) -> (r: Vec<Vec<char>>)
    ensures
        r@.map_values(|w: Vec<char>| w@) == identity_defaults(home@),
{
    let mut out: Vec<Vec<char>> = Vec::new();
    let mut a = chars_of(home);
    crate::text::append_str(&mut a, "/.ssh/id_dsa");
    out.push(a);
    let mut b = chars_of(home);
    crate::text::append_str(&mut b, "/.ssh/id_ecdsa");
    out.push(b);
    let mut c = chars_of(home);
    crate::text::append_str(&mut c, "/.ssh/id_ed25519");
    out.push(c);
    let mut d = chars_of(home);
    crate::text::append_str(&mut d, "/.ssh/id_rsa");
    out.push(d);
    assert(out@.map_values(|w: Vec<char>| w@) =~= identity_defaults(home@));
    out
}

proof fn lemma_tokens_for_nonempty(k: Seq<char>)
    ensures
        tokens_for(k) matches Some(ts) ==> tokens_nonempty(ts),
{
    lemma_token_lists();
}

impl Config {
    /// The options before expansion: command line first, then each file.
    fn matched_options(&self, host: &str, local_user: &str) -> (r: ConfigMap)
        requires
            local_user@ == crate::ssh_config::local_user(self@),
        ensures
            r@ == matched_options(self@, host@),
    {
        let mut result = self.options.clone();
        let ghost fs = self@.files;
        let mut i: usize = 0;
        while i < self.config_files.len()
            invariant
                i <= self.config_files.len(),
                fs == self@.files,
                fs.len() == self.config_files@.len(),
                result@ == files_applied(fs.take(i as int), host@, local_user@, local_user@, self@.options),
            decreases self.config_files.len() - i,
        {
            assert(fs[i as int] == self.config_files@[i as int]@);
            self.config_files[i].apply_matches(
                host,
                local_user,
                local_user,
                Context::FirstPass,
                &mut result,
            );
            assert(fs.take(i + 1).drop_last() == fs.take(i as int));
            i = i + 1;
        }
        assert(fs.take(i as int) == fs);
        result
    }

    /// Expands every value of `m` with the token map `tm`.
    fn expand_all(&self, local: &LocalHost, m: &mut ConfigMap, tm: &ConfigMap)
        ensures
            final(m)@ == Map::new(
                |k: Seq<char>| old(m)@.contains_key(k),
                |k: Seq<char>| expand_value(self@, local@, k, old(m)@[k], tm@),
            ),
    {
        let keys = m.keys();
        let ghost kv = views(keys@);
        let ghost m0 = m@;
        let mut i: usize = 0;
        while i < keys.len()
            invariant
                i <= keys.len(),
                kv == views(keys@),
                kv.no_duplicates(),
                forall|k: Seq<char>| m0.contains_key(k) <==> kv.contains(k),
                forall|k: Seq<char>| #[trigger] m@.contains_key(k) <==> m0.contains_key(k),
                forall|k: Seq<char>|
                    #![trigger m@[k]]
                    m0.contains_key(k) ==> m@[k] == (if kv.take(i as int).contains(k) {
                        expand_value(self@, local@, k, m0[k], tm@)
                    } else {
                        m0[k]
                    }),
            decreases keys.len() - i,
        {
            let k = &keys[i];
            proof {
                assert(kv[i as int] == k@);
                assert(kv.contains(k@));
                assert(!kv.take(i as int).contains(k@)) by {
                    if kv.take(i as int).contains(k@) {
                        let j = choose|j: int| 0 <= j < i && #[trigger] kv.take(i as int)[j] == k@;
                        assert(kv[j] == kv[i as int]);
                    }
                }
                lemma_tokens_for_nonempty(k@);
            }
            let v = match m.get(k.as_str()) {
                Some(v) => v.clone(),
                None => String::new(),
            };
            assert(v@ == m0[k@]);
            let mut nv = chars_of(v.as_str());
            match self.should_expand_tokens(k.as_str()) {
                Some(ts) => {
                    nv = self.expand_tokens(local, &nv, &ts, tm, true);
                },
                None => {},
            }
            let mut nvs = string_of(&nv);
            if self.should_expand_environment(k.as_str()) {
                proof {
                    reveal_strlit("\\$\\{([a-zA-Z_][a-zA-Z_0-9]+)\\}");
                }
                nvs = replace_env_refs("\\$\\{([a-zA-Z_][a-zA-Z_0-9]+)\\}", nvs.as_str(), self.env());
            }
            assert(nvs@ == expand_value(self@, local@, k@, m0[k@], tm@));
            m.insert(k.clone(), nvs);
            proof {
                let a = kv.take(i as int);
                let b = kv.take(i + 1);
                assert forall|q: Seq<char>| b.contains(q) <==> (a.contains(q) || q == k@) by {
                    if b.contains(q) {
                        let j = choose|j: int| 0 <= j < b.len() && #[trigger] b[j] == q;
                        if j < i {
                            assert(a[j] == q);
                        }
                    }
                    if a.contains(q) {
                        let j = choose|j: int| 0 <= j < a.len() && #[trigger] a[j] == q;
                        assert(b[j] == q);
                    }
                    if q == k@ {
                        assert(b[i as int] == q);
                    }
                }
            }
            i = i + 1;
        }
        assert(kv.take(i as int) == kv);
        assert(m@ =~= Map::new(
            |k: Seq<char>| m0.contains_key(k),
            |k: Seq<char>| expand_value(self@, local@, k, m0[k], tm@),
        ));
    }
}

impl Config {
    /// Fills in the defaults that `for_host` gives.
    fn fill_defaults(&self, local: &LocalHost, m: &mut ConfigMap, local_user: &str)
        requires
            local_user@ == crate::ssh_config::local_user(self@),
        ensures
            final(m)@ == with_host_defaults(self@, local@, old(m)@),
    {
        let ghost m0 = m@;
        if !m.contains_key("port") {
            m.insert(String::from_str("port"), String::from_str("22"));
        }
        assert(m@ == with_default(m0, "port"@, "22"@));
        if !m.contains_key("user") {
            m.insert(String::from_str("user"), String::from_str(local_user));
        }
        let ghost m1 = m@;
        assert(m1 == with_default(with_default(m0, "port"@, "22"@), "user"@, local_user@));
        match self.resolve_home(local) {
            Some(home) => {
                if !m.contains_key("userknownhostsfile") {
                    let mut s = chars_of(home.as_str());
                    crate::text::append_str(&mut s, "/.ssh/known_hosts ");
                    crate::text::append_str(&mut s, home.as_str());
                    crate::text::append_str(&mut s, "/.ssh/known_hosts2");
                    m.insert(String::from_str("userknownhostsfile"), string_of(&s));
                }
                assert(m@ == with_default(m1, "userknownhostsfile"@, known_hosts_default(home@)));
                let ghost m15 = m@;
                if !m.contains_key("identityfile") {
                    let ps = identity_default_paths(home.as_str());
                    let j = join_space(&ps);
                    m.insert(String::from_str("identityfile"), string_of(&j));
                }
                assert(m@ == with_default(
                    m15,
                    "identityfile"@,
                    join(identity_defaults(home@), seq![' ']),
                ));
            },
            None => {},
        }
        let ghost m2 = m@;
        match self.resolve_env("SSH_AUTH_SOCK") {
            Some(sock) => {
                if !m.contains_key("identityagent") {
                    m.insert(String::from_str("identityagent"), sock);
                }
            },
            None => {},
        }
    }

    /// Resolve the configuration for a host, as a flat map, with what
    /// the local machine says of itself given: see `host_config`.
    pub fn for_host_on(&self, host: &str, local: &LocalHost) -> (r: ConfigMap)
        ensures
            r@ == host_config(self@, local@, host@),
    {
        proof {
            lemma_token_lists();
        }
        let local_user = self.resolve_local_user();
        let mut result = self.matched_options(host, local_user.as_str());
        let ghost m0 = result@;
        let mut token_map = self.tokens.clone();
        token_map.insert(String::from_str("%h"), String::from_str(host));
        let hostname = match result.get("hostname") {
            Some(cur) => {
                let toks = hostname_token_list();
                let e = self.expand_tokens(local, &chars_of(cur.as_str()), &toks, &token_map, true);
                string_of(&e)
            },
            None => String::from_str(host),
        };
        assert(hostname@ == resolved_hostname(self@, local@, host@));
        result.insert(String::from_str("hostname"), hostname.clone());
        assert(result@ == options_with_hostname(self@, local@, host@));
        let port = match result.get("port") {
            Some(p) => p.clone(),
            None => String::from_str("22"),
        };
        token_map.insert(String::from_str("%h"), hostname);
        token_map.insert(String::from_str("%n"), String::from_str(host));
        token_map.insert(String::from_str("%r"), local_user.clone());
        token_map.insert(String::from_str("%p"), port);
        assert(token_map@ =~= host_token_map(self@, local@, host@));
        self.expand_all(local, &mut result, &token_map);
        assert(result@ =~= expanded_options(self@, local@, host@));
        self.fill_defaults(local, &mut result, local_user.as_str());
        result
    }

    /// Resolve the configuration for a host as a flat map: the options
    /// set with `set_option`, then the first value that the files give
    /// each option, with `%` tokens and `${NAME}` references expanded
    /// and the defaults filled in. The home directory and host name of
    /// the machine are asked for here; whatever they are, the result is
    /// `host_config` of them.
    pub fn for_host(&self, host: &str) -> (r: ConfigMap)
        ensures
            exists|h: LocalHostView| r@ == host_config(self@, h, host@),
    {
        let local = LocalHost::probe();
        self.for_host_on(host, &local)
    }

    /// A context with no files, options, tokens or environment.
    pub fn new() -> (r: Self)
        ensures
            r@ == (ConfigView {
                files: seq![],
                options: Map::empty(),
                tokens: Map::empty(),
                environment: None,
                process_environment: Map::empty(),
                uid: seq![],
            }),
    {
        let r = Config {
            config_files: Vec::new(),
            options: ConfigMap::new(),
            tokens: ConfigMap::new(),
            environment: None,
            process_environment: ConfigMap::new(),
            uid: String::new(),
        };
        assert(r@.files =~= seq![]);
        r
    }

    /// Assign an environment that stands in for the process one (useful
    /// for testing). The environment is used to expand certain values
    /// of the config.
    pub fn assign_environment(&mut self, env: ConfigMap)
        ensures
            final(self)@ == (ConfigView { environment: Some(env@), ..old(self)@ }),
    {
        self.environment = Some(env);
    }

    /// Assigns token names and expansions for use with a number of
    /// options; the names and expansions are those of `man 5 ssh_config`.
    pub fn assign_tokens(&mut self, tokens: ConfigMap)
        ensures
            final(self)@ == (ConfigView { tokens: tokens@, ..old(self)@ }),
    {
        self.tokens = tokens;
    }

    /// Hands in the process environment, which names are looked up in
    /// when no environment is assigned.
    pub fn assign_process_environment(&mut self, env: ConfigMap)
        ensures
            final(self)@ == (ConfigView { process_environment: env@, ..old(self)@ }),
    {
        self.process_environment = env;
    }

    /// Hands in the user id of the process, the value of `%i`.
    pub fn assign_uid(&mut self, uid: String)
        ensures
            final(self)@ == (ConfigView { uid: uid@, ..old(self)@ }),
    {
        self.uid = uid;
    }

    /// Assign the value for an option, as a command-line option would:
    /// these values take precedence over any values found in config
    /// files. The key is lower-cased.
    pub fn set_option(&mut self, key: &str, value: &str)
        ensures
            final(self)@ == (ConfigView {
                options: old(self)@.options.insert(crate::text::unicode_lowercase(key@), value@),
                ..old(self)@
            }),
    {
        let k = crate::text::to_lowercase(key);
        let mut options = ConfigMap::new();
        std::mem::swap(&mut options, &mut self.options);
        options.insert(k, String::from_str(value));
        self.options = options;
    }

    /// Parse `config_string` as if it were the contents of an
    /// `ssh_config` file, and add that to the list of configs. (`Include`
    /// lines name files, which this does not read.)
    pub fn add_config_string(&mut self, config_string: &str)
        ensures
            final(self)@ == (ConfigView {
                files: old(self)@.files.push(
                    crate::ssh_parse::apply_lines(
                        ParsedConfigFile::new_view(None),
                        crate::text::lines(config_string@),
                    ),
                ),
                ..old(self)@
            }),
    {
        let f = ParsedConfigFile::parse(config_string, None);
        self.add_parsed_file(f);
    }

    /// Add a file that has been read and parsed to the list of configs.
    pub fn add_parsed_file(&mut self, file: ParsedConfigFile)
        ensures
            final(self)@ == (ConfigView { files: old(self)@.files.push(file@), ..old(self)@ }),
    {
        let ghost prev = self.config_files@;
        self.config_files.push(file);
        assert(file_views(self.config_files@) =~= file_views(prev).push(file@));
    }
}

// ---------------------------------------------------------------------
// Identity files
// ---------------------------------------------------------------------
/// The `IdentityFile` entries that apply to a host, unexpanded: the
/// entries of each file in order, or, where none applies, the OpenSSH
/// defaults under the home directory (none when it is not known).
pub open spec fn raw_identity_files(c: ConfigView, h: LocalHostView, host: Seq<char>) -> Seq<
    Seq<char>,
> {
    let found = files_identities(c.files, host, local_user(c), local_user(c));
    if found.len() == 0 {
        match home_of(c, h) {
            Some(home) => identity_defaults(home),
            None => seq![],
        }
    } else {
        found
    }
}

/// The token map for identity paths, built from the resolved options
/// `resolved` as `for_host` builds its own: `%h` the host name, `%n`
/// the host as given, `%r` the local user, `%p` the port.
pub open spec fn identity_token_map(
    c: ConfigView,
    host: Seq<char>,
    resolved: Map<Seq<char>, Seq<char>>,
) -> Map<Seq<char>, Seq<char>> {
    let hostname = match map_get(resolved, "hostname"@) {
        Some(x) => x,
        None => host,
    };
    c.tokens.insert("%h"@, hostname).insert("%n"@, host).insert("%r"@, local_user(c)).insert(
        "%p"@,
        port_or_default(resolved),
    )
}

/// The tokens that `%C` hashes.
pub open spec fn connection_tokens() -> Seq<Seq<char>> {
    seq!["%l"@, "%h"@, "%p"@, "%r"@, "%j"@]
}

/// An identity path after token `t`, when the path holds it: the token
/// map comes first, then what the configuration and the machine say.
pub open spec fn identity_token_step(
    c: ConfigView,
    h: LocalHostView,
    path: Seq<char>,
    t: Seq<char>,
    tm: Map<Seq<char>, Seq<char>>,
) -> Seq<char> {
    if !contains(path, t) {
        path
    } else {
        let rep: Option<Seq<char>> = if tm.contains_key(t) {
            Some(tm[t])
        } else if t == "%i"@ {
            Some(c.uid)
        } else if t == "%u"@ {
            Some(local_user(c))
        } else if t == "%l"@ {
            Some(local_host_name(h, false))
        } else if t == "%L"@ {
            Some(local_host_name(h, true))
        } else if t == "%d"@ {
            home_of(c, h)
        } else if t == "%C"@ {
            Some(hash_text(expand_tokens(c, h, "%l%h%p%r%j"@, connection_tokens(), tm)))
        } else {
            None
        };
        match rep {
            Some(v) => replace(path, t, v),
            None => path,
        }
    }
}

/// An identity path after the tokens `ts` from position `i` on.
pub open spec fn identity_tokens_from(
    c: ConfigView,
    h: LocalHostView,
    path: Seq<char>,
    ts: Seq<Seq<char>>,
    i: int,
    tm: Map<Seq<char>, Seq<char>>,
) -> Seq<char>
    decreases ts.len() - i,
{
    if i < 0 || i >= ts.len() {
        path
    } else {
        identity_tokens_from(c, h, identity_token_step(c, h, path, ts[i], tm), ts, i + 1, tm)
    }
}

/// One identity path, expanded without splitting it on white space: a
/// leading `~/` (given a home directory), the path tokens, `%%`, then
/// `${NAME}` references.
pub open spec fn expand_identity_path(
    c: ConfigView,
    h: LocalHostView,
    path: Seq<char>,
    tm: Map<Seq<char>, Seq<char>>,
) -> Seq<char> {
    let p1 = if starts_with(path, "~/"@) {
        match home_of(c, h) {
            Some(home) => home + path.skip(1),
            None => path,
        }
    } else {
        path
    };
    let p2 = identity_tokens_from(c, h, p1, path_tokens(), 0, tm);
    env_expand(replace(p2, "%%"@, "%"@), env_of(c))
}

/// The identity files of a host, each expanded, in the order they are
/// tried.
pub open spec fn resolved_identity_files(c: ConfigView, h: LocalHostView, host: Seq<char>) -> Seq<
    Seq<char>,
> {
    let tm = identity_token_map(c, host, host_config(c, h, host));
    raw_identity_files(c, h, host).map_values(|p: Seq<char>| expand_identity_path(c, h, p, tm))
}

/// The resolved options of a host: the flat map and the typed list of
/// identity files.
#[derive(Debug, Clone, PartialEq, Eq)]
pub struct HostOptions {
    /// Flat key-value options, as `Config::for_host` produces them.
    pub options: ConfigMap,
    /// `IdentityFile` entries in declaration order, with the defaults
    /// applied when none matched.
    pub identity_files: Vec<IdentityFileEntry>,
}

/// Host options as values.
pub struct HostOptionsView {
    pub options: Map<Seq<char>, Seq<char>>,
    pub identity_files: Seq<Seq<char>>,
}

impl View for HostOptions {
    type V = HostOptionsView;

    open spec fn view(&self) -> HostOptionsView {
        HostOptionsView {
            options: self.options@,
            identity_files: entry_paths(self.identity_files@),
        }
    }
}

impl Config {
    /// The unexpanded `IdentityFile` entries that apply to `host`.
    fn collect_raw_identity_files(&self, host: &str, local: &LocalHost) -> (r: Vec<
        IdentityFileEntry,
    >)
        ensures
            entry_paths(r@) == raw_identity_files(self@, local@, host@),
    {
        let local_user = self.resolve_local_user();
        let mut entries: Vec<IdentityFileEntry> = Vec::new();
        let ghost fs = self@.files;
        let mut i: usize = 0;
        assert(entry_paths(entries@) =~= seq![]);
        while i < self.config_files.len()
            invariant
                i <= self.config_files.len(),
                fs == self@.files,
                fs.len() == self.config_files@.len(),
                local_user@ == crate::ssh_config::local_user(self@),
                entry_paths(entries@) == files_identities(
                    fs.take(i as int),
                    host@,
                    local_user@,
                    local_user@,
                ),
            decreases self.config_files.len() - i,
        {
            assert(fs[i as int] == self.config_files@[i as int]@);
            self.config_files[i].collect_identity_files(
                host,
                local_user.as_str(),
                local_user.as_str(),
                Context::FirstPass,
                &mut entries,
            );
            assert(fs.take(i + 1).drop_last() == fs.take(i as int));
            i = i + 1;
        }
        assert(fs.take(i as int) == fs);
        if entries.len() == 0 {
            match self.resolve_home(local) {
                Some(home) => {
                    let ps = identity_default_paths(home.as_str());
                    let mut k: usize = 0;
                    while k < ps.len()
                        invariant
                            k <= ps.len(),
                            entry_paths(entries@) == ps@.map_values(|w: Vec<char>| w@).take(
                                k as int,
                            ),
                        decreases ps.len() - k,
                    {
                        let ghost prev = entries@;
                        let e = IdentityFileEntry::new(string_of(&ps[k]));
                        entries.push(e);
                        assert(entry_paths(entries@) =~= entry_paths(prev).push(ps@[k as int]@));
                        assert(ps@.map_values(|w: Vec<char>| w@).take(k + 1) =~= ps@.map_values(
                            |w: Vec<char>| w@,
                        ).take(k as int).push(ps@[k as int]@));
                        k = k + 1;
                    }
                    assert(ps@.map_values(|w: Vec<char>| w@).take(k as int) == ps@.map_values(
                        |w: Vec<char>| w@,
                    ));
                },
                None => {},
            }
        }
        entries
    }

    /// The token map for identity paths.
    fn build_token_map_for_host(&self, host: &str, resolved: &ConfigMap) -> (r: ConfigMap)
        ensures
            r@ == identity_token_map(self@, host@, resolved@),
    {
        let target_user = self.resolve_local_user();
        let mut token_map = self.tokens.clone();
        let hostname = match resolved.get("hostname") {
            Some(h) => h.clone(),
            None => String::from_str(host),
        };
        let port = match resolved.get("port") {
            Some(p) => p.clone(),
            None => String::from_str("22"),
        };
        token_map.insert(String::from_str("%h"), hostname);
        token_map.insert(String::from_str("%n"), String::from_str(host));
        token_map.insert(String::from_str("%r"), target_user);
        token_map.insert(String::from_str("%p"), port);
        token_map
    }

    /// The path after one identity token.
    fn identity_token_step(&self, local: &LocalHost, path: &Vec<char>, t: &Vec<char>, tm: &ConfigMap) -> (r:
        Vec<char>)
        requires
            t@.len() > 0,
        ensures
            r@ == identity_token_step(self@, local@, path@, t@, tm@),
    {
        proof {
            lemma_token_lists();
        }
        if !contains_exec(path, t) {
            return sub_chars(path, 0, path.len());
        }
        let ts = string_of(t);
        let rep: Option<String> = if let Some(v) = tm.get(ts.as_str()) {
            Some(v.clone())
        } else if str_eq(ts.as_str(), "%i") {
            Some(self.uid.clone())
        } else if str_eq(ts.as_str(), "%u") {
            Some(self.resolve_local_user())
        } else if str_eq(ts.as_str(), "%l") {
            Some(resolve_local_host(local, false))
        } else if str_eq(ts.as_str(), "%L") {
            Some(resolve_local_host(local, true))
        } else if str_eq(ts.as_str(), "%d") {
            self.resolve_home(local)
        } else if str_eq(ts.as_str(), "%C") {
            let mut ctoks: Vec<String> = Vec::new();
            push_str(&mut ctoks, "%l");
            push_str(&mut ctoks, "%h");
            push_str(&mut ctoks, "%p");
            push_str(&mut ctoks, "%r");
            push_str(&mut ctoks, "%j");
            assert(views(ctoks@) =~= connection_tokens());
            proof {
                reveal_strlit("%l");
                reveal_strlit("%h");
                reveal_strlit("%p");
                reveal_strlit("%r");
                reveal_strlit("%j");
            }
            let c_value = self.expand_tokens(local, &chars_of("%l%h%p%r%j"), &ctoks, tm, true);
            Some(hash_text_exec(string_of(&c_value).as_str()))
        } else {
            None
        };
        match rep {
            Some(v) => replace_exec(path, t, &chars_of(v.as_str())),
            None => sub_chars(path, 0, path.len()),
        }
    }

    /// Expand a leading `~/`, the path tokens, `%%` and `${NAME}`
    /// references in one identity path, without splitting it on white
    /// space.
    fn expand_identity_path(&self, local: &LocalHost, path: &str, tm: &ConfigMap) -> (r: String)
        ensures
            r@ == expand_identity_path(self@, local@, path@, tm@),
    {
        proof {
            lemma_token_lists();
        }
        let cs = chars_of(path);
        let mut p = sub_chars(&cs, 0, cs.len());
        assert(p@ == path@);
        if starts_with_exec(&cs, &chars_of("~/")) {
            if let Some(home) = self.resolve_home(local) {
                let mut n = chars_of(home.as_str());
                crate::text::append_chars(&mut n, &sub_chars(&cs, 1, cs.len()));
                p = n;
            }
        }
        let toks = path_token_list();
        let ghost ts = path_tokens();
        let ghost p1 = p@;
        let mut i: usize = 0;
        while i < toks.len()
            invariant
                i <= toks.len(),
                views(toks@) == ts,
                ts == path_tokens(),
                tokens_nonempty(ts),
                identity_tokens_from(self@, local@, p@, ts, i as int, tm@) == identity_tokens_from(
                    self@,
                    local@,
                    p1,
                    ts,
                    0,
                    tm@,
                ),
            decreases toks.len() - i,
        {
            let t = chars_of(toks[i].as_str());
            assert(t@ == ts[i as int]);
            p = self.identity_token_step(local, &p, &t, tm);
            i = i + 1;
        }
        proof {
            reveal_strlit("%");
        }
        let q = replace_exec(&p, &chars_of("%%"), &chars_of("%"));
        proof {
            reveal_strlit("\\$\\{([a-zA-Z_][a-zA-Z_0-9]+)\\}");
        }
        replace_env_refs("\\$\\{([a-zA-Z_][a-zA-Z_0-9]+)\\}", string_of(&q).as_str(), self.env())
    }

    /// Resolve both the flat map and the typed identity list of a host,
    /// with what the local machine says of itself given.
    pub fn resolve_host_on(&self, host: &str, local: &LocalHost) -> (r: HostOptions)
        ensures
            r@.options == host_config(self@, local@, host@),
            r@.identity_files == resolved_identity_files(self@, local@, host@),
    {
        let options = self.for_host_on(host, local);
        let token_map = self.build_token_map_for_host(host, &options);
        let raw = self.collect_raw_identity_files(host, local);
        let ghost tm = token_map@;
        let mut identity_files: Vec<IdentityFileEntry> = Vec::new();
        let mut i: usize = 0;
        while i < raw.len()
            invariant
                i <= raw.len(),
                tm == token_map@,
                entry_paths(identity_files@) == entry_paths(raw@).take(i as int).map_values(
                    |p: Seq<char>| expand_identity_path(self@, local@, p, tm),
                ),
            decreases raw.len() - i,
        {
            let ghost prev = identity_files@;
            let e = IdentityFileEntry::new(
                self.expand_identity_path(local, raw[i].path.as_str(), &token_map),
            );
            identity_files.push(e);
            assert(entry_paths(identity_files@) =~= entry_paths(prev).push(e.path@));
            assert(entry_paths(raw@)[i as int] == raw@[i as int].path@);
            assert(entry_paths(raw@).take(i + 1).map_values(
                |p: Seq<char>| expand_identity_path(self@, local@, p, tm),
            ) =~= entry_paths(raw@).take(i as int).map_values(
                |p: Seq<char>| expand_identity_path(self@, local@, p, tm),
            ).push(expand_identity_path(self@, local@, raw@[i as int].path@, tm)));
            i = i + 1;
        }
        assert(entry_paths(raw@).take(i as int) == entry_paths(raw@));
        HostOptions { options, identity_files }
    }

    /// Resolve both the flat map and the typed identity list of a host in
    /// one call, with one answer of the machine for both: the identity
    /// paths are expanded one by one (tilde, `%` tokens, `${NAME}`),
    /// never split on white space.
    pub fn resolve_host(&self, host: &str) -> (r: HostOptions)
        ensures
            exists|h: LocalHostView|
                r@.options == host_config(self@, h, host@) && r@.identity_files
                    == resolved_identity_files(self@, h, host@),
    {
        let local = LocalHost::probe();
        self.resolve_host_on(host, &local)
    }

    /// The identity files of a host, expanded, in the order OpenSSH tries
    /// them, with what the local machine says of itself given.
    pub fn resolve_identity_files_on(&self, host: &str, local: &LocalHost) -> (r: Vec<
        IdentityFileEntry,
    >)
        ensures
            entry_paths(r@) == resolved_identity_files(self@, local@, host@),
    {
        self.resolve_host_on(host, local).identity_files
    }

    /// The identity files of a host, expanded, in the order OpenSSH tries
    /// them: the entries of each file that apply in declaration order,
    /// or the OpenSSH defaults where none applies.
    pub fn resolve_identity_files(&self, host: &str) -> (r: Vec<IdentityFileEntry>)
        ensures
            exists|h: LocalHostView| entry_paths(r@) == resolved_identity_files(self@, h, host@),
    {
        self.resolve_host(host).identity_files
    }
}

/// The flat options after an identity path is pushed: appended to the
/// `identityfile` value after a space (no space after an empty value),
/// or set as it.
pub open spec fn pushed_identity(opts: Map<Seq<char>, Seq<char>>, path: Seq<char>) -> Map<
    Seq<char>,
    Seq<char>,
> {
    if opts.contains_key("identityfile"@) {
        let e = opts["identityfile"@];
        opts.insert(
            "identityfile"@,
            if e.len() > 0 {
                e + seq![' '] + path
            } else {
                path
            },
        )
    } else {
        opts.insert("identityfile"@, path)
    }
}

/// The identity list that a flat map gives: its `identityfile` value
/// split on white space (paths holding spaces do not survive this).
pub open spec fn split_identities(opts: Map<Seq<char>, Seq<char>>) -> Seq<Seq<char>> {
    match map_get(opts, "identityfile"@) {
        Some(v) => words(v),
        None => seq![],
    }
}

impl HostOptions {
    /// Append an `IdentityFile` entry, keeping the typed list and the
    /// space-joined `identityfile` option in step.
    pub fn push_identity_file(&mut self, path: &str)
        ensures
            final(self)@.identity_files == old(self)@.identity_files.push(path@),
            final(self)@.options == pushed_identity(old(self)@.options, path@),
    {
        let ghost prev = self.identity_files@;
        self.identity_files.push(IdentityFileEntry::new(String::from_str(path)));
        assert(entry_paths(self.identity_files@) =~= entry_paths(prev).push(path@));
        let mut options = ConfigMap::new();
        std::mem::swap(&mut options, &mut self.options);
        let value = match options.get("identityfile") {
            Some(existing) => {
                let mut e = chars_of(existing.as_str());
                let ghost e0 = e@;
                if e.len() > 0 {
                    e.push(' ');
                    assert(e@ == e0 + seq![' ']);
                }
                crate::text::append_str(&mut e, path);
                assert(e@ == (if e0.len() > 0 {
                    e0 + seq![' '] + path@
                } else {
                    path@
                })) by {
                    if e0.len() == 0 {
                        assert(e0 + path@ =~= path@);
                    }
                }
                string_of(&e)
            },
            None => String::from_str(path),
        };
        options.insert(String::from_str("identityfile"), value);
        self.options = options;
    }

    /// Host options from a flat map: the identity list is its
    /// `identityfile` value split on white space, so a path that holds a
    /// space does not survive; `Config::resolve_host` keeps such paths.
    pub fn from_options(options: ConfigMap) -> (r: Self)
        ensures
            r@.options == options@,
            r@.identity_files == split_identities(options@),
    {
        let mut identity_files: Vec<IdentityFileEntry> = Vec::new();
        match options.get("identityfile") {
            Some(value) => {
                let ws = words_exec(&chars_of(value.as_str()));
                let ghost wv = ws@.map_values(|w: Vec<char>| w@);
                let mut i: usize = 0;
                while i < ws.len()
                    invariant
                        i <= ws.len(),
                        wv == ws@.map_values(|w: Vec<char>| w@),
                        entry_paths(identity_files@) == wv.take(i as int),
                    decreases ws.len() - i,
                {
                    let ghost prev = identity_files@;
                    let e = IdentityFileEntry::new(string_of(&ws[i]));
                    identity_files.push(e);
                    assert(entry_paths(identity_files@) =~= entry_paths(prev).push(wv[i as int]));
                    assert(wv.take(i + 1) =~= wv.take(i as int).push(wv[i as int]));
                    i = i + 1;
                }
                assert(wv.take(i as int) == wv);
            },
            None => {
                assert(entry_paths(identity_files@) =~= seq![]);
            },
        }
        HostOptions { options, identity_files }
    }
}

impl Default for HostOptions {
    fn default() -> (r: Self)
        ensures
            r@.options == Map::<Seq<char>, Seq<char>>::empty(),
            r@.identity_files == Seq::<Seq<char>>::empty(),
    {
        let r = HostOptions { options: ConfigMap::new(), identity_files: Vec::new() };
        assert(r@.identity_files =~= seq![]);
        r
    }
}

impl From<ConfigMap> for HostOptions {
    /// Host options from a flat map, as `from_options` makes them.
    fn from(options: ConfigMap) -> (r: Self)
        ensures
            r@.options == options@,
            r@.identity_files == split_identities(options@),
    {
        HostOptions::from_options(options)
    }
}

impl vstd::std_specs::convert::FromSpecImpl<ConfigMap> for HostOptions {
    open spec fn obeys_from_spec() -> bool {
        false
    }

    open spec fn from_spec(v: ConfigMap) -> HostOptions {
        arbitrary()
    }
}

// ---------------------------------------------------------------------
// Hosts and files
// ---------------------------------------------------------------------
/// `acc` with `x` appended unless it holds `x` already.
pub open spec fn push_new(acc: Seq<Seq<char>>, x: Seq<char>) -> Seq<Seq<char>> {
    if acc.contains(x) {
        acc
    } else {
        acc.push(x)
    }
}

/// The items of `s` in the order of their first occurrence, each once.
pub open spec fn dedup(s: Seq<Seq<char>>) -> Seq<Seq<char>>
    decreases s.len(),
{
    if s.len() == 0 {
        seq![]
    } else {
        push_new(dedup(s.drop_last()), s.last())
    }
}

/// The names of the literal, non-negated patterns of a list, in order.
pub open spec fn literal_names(ps: Seq<PatternView>) -> Seq<Seq<char>>
    decreases ps.len(),
{
    if ps.len() == 0 {
        seq![]
    } else {
        literal_names(ps.drop_last()) + (if ps.last().is_literal && !ps.last().negated {
            seq![ps.last().original]
        } else {
            seq![]
        })
    }
}

/// The literal host names of the `Host` criteria of a list, in order.
pub open spec fn criteria_hosts(cs: Seq<CriteriaView>) -> Seq<Seq<char>>
    decreases cs.len(),
{
    if cs.len() == 0 {
        seq![]
    } else {
        criteria_hosts(cs.drop_last()) + match cs.last() {
            CriteriaView::Host(ps) => literal_names(ps),
            _ => seq![],
        }
    }
}

/// The literal host names of the stanzas, in order.
pub open spec fn groups_hosts(gs: Seq<GroupView>) -> Seq<Seq<char>>
    decreases gs.len(),
{
    if gs.len() == 0 {
        seq![]
    } else {
        groups_hosts(gs.drop_last()) + criteria_hosts(gs.last().criteria)
    }
}

/// The literal host names of the files, in order.
pub open spec fn files_hosts(fs: Seq<FileView>) -> Seq<Seq<char>>
    decreases fs.len(),
{
    if fs.len() == 0 {
        seq![]
    } else {
        files_hosts(fs.drop_last()) + groups_hosts(fs.last().groups)
    }
}

/// The names of the files read, in order.
pub open spec fn files_loaded(fs: Seq<FileView>) -> Seq<Seq<char>>
    decreases fs.len(),
{
    if fs.len() == 0 {
        seq![]
    } else {
        files_loaded(fs.drop_last()) + fs.last().loaded_files
    }
}

/// Appends the names of `names` to `out`, each unless `out` holds it.
fn push_new_names(out: &mut Vec<String>, names: &Vec<String>)
    ensures
        views(final(out)@) == names@.fold_left(
            views(old(out)@),
            |acc: Seq<Seq<char>>, n: String| push_new(acc, n@),
        ),
{
    let ghost f = |acc: Seq<Seq<char>>, n: String| push_new(acc, n@);
    let ghost o0 = views(out@);
    let mut i: usize = 0;
    while i < names.len()
        invariant
            i <= names.len(),
            f == (|acc: Seq<Seq<char>>, n: String| push_new(acc, n@)),
            views(out@) == names@.take(i as int).fold_left(o0, f),
        decreases names.len() - i,
    {
        let n = &names[i];
        let mut found = false;
        let mut j: usize = 0;
        while j < out.len()
            invariant
                j <= out.len(),
                found == exists|q: int| 0 <= q < j && views(out@)[q] == n@,
            decreases out.len() - j,
        {
            let same = str_eq(out[j].as_str(), n.as_str());
            assert(views(out@)[j as int] == out@[j as int]@);
            if same {
                found = true;
            }
            j = j + 1;
        }
        let ghost before = views(out@);
        proof {
            assert(found == before.contains(n@)) by {
                if before.contains(n@) {
                    let q = choose|q: int| 0 <= q < before.len() && before[q] == n@;
                    assert(views(out@)[q] == n@);
                }
            }
            assert(names@.take(i + 1).drop_last() == names@.take(i as int));
            assert(names@.take(i + 1).last() == names@[i as int]);
        }
        if !found {
            out.push(n.clone());
            assert(views(out@) =~= before.push(n@));
        }
        i = i + 1;
    }
    assert(names@.take(i as int) == names@);
}

/// Deduplicating a list and its extension.
proof fn lemma_dedup_push(s: Seq<Seq<char>>, x: Seq<char>)
    ensures
        dedup(s.push(x)) == push_new(dedup(s), x),
{
    assert(s.push(x).drop_last() == s);
}

/// Deduplicating `s + t` is deduplicating `s`, then pushing the items of
/// `t` that are new.
proof fn lemma_dedup_append(s: Seq<Seq<char>>, t: Seq<String>)
    ensures
        dedup(s + views(t)) == t.fold_left(dedup(s), |acc: Seq<Seq<char>>, n: String| push_new(acc, n@)),
    decreases t.len(),
{
    let f = |acc: Seq<Seq<char>>, n: String| push_new(acc, n@);
    if t.len() == 0 {
        assert(s + views(t) =~= s);
    } else {
        lemma_dedup_append(s, t.drop_last());
        assert(s + views(t) =~= (s + views(t.drop_last())).push(t.last()@));
        lemma_dedup_push(s + views(t.drop_last()), t.last()@);
        t.lemma_fold_left_split(dedup(s), f, t.len() - 1);
        assert(t.subrange(0, t.len() - 1) =~= t.drop_last());
        assert(t.subrange(t.len() - 1, t.len() as int) =~= seq![t.last()]);
        reveal_with_fuel(Seq::fold_left, 2);
    }
}

/// Whether two path names name the same path, as `std::path::Path`'s
/// `==` decides it (by the paths' components).
pub uninterp spec fn same_path(a: Seq<char>, b: Seq<char>) -> bool;

/// Trusted: `Path::new(a) == Path::new(b)` compares the two paths
/// component by component (std's documentation of `Path::components`:
/// repeated separators, interior `.` and a trailing separator do not
/// count). The outcome depends on the two strings and on the platform's
/// path syntax, which is fixed for a build; it is named `same_path`,
/// and the one claim made of it is that a path equals itself.
#[verifier::external_body]
fn path_eq(a: &str, b: &str) -> (r: bool)
    ensures
        r == same_path(a@, b@),
        a@ == b@ ==> r,
{
    std::path::Path::new(a) == std::path::Path::new(b)
}

/// Some path of `acc` is the same path as `x`.
pub open spec fn has_same_path(acc: Seq<Seq<char>>, x: Seq<char>) -> bool {
    exists|i: int| 0 <= i < acc.len() && same_path(#[trigger] acc[i], x)
}

/// `acc` with `x` appended unless it holds the same path already.
pub open spec fn push_new_path(acc: Seq<Seq<char>>, x: Seq<char>) -> Seq<Seq<char>> {
    if has_same_path(acc, x) {
        acc
    } else {
        acc.push(x)
    }
}

/// The paths of `s` in the order of their first occurrence, a path that
/// is the same as an earlier one left out.
pub open spec fn dedup_paths(s: Seq<Seq<char>>) -> Seq<Seq<char>>
    decreases s.len(),
{
    if s.len() == 0 {
        seq![]
    } else {
        push_new_path(dedup_paths(s.drop_last()), s.last())
    }
}

/// Appends `n` to `out` unless `out` holds the same path.
fn push_path(out: &mut Vec<String>, n: &String)
    ensures
        views(final(out)@) == push_new_path(views(old(out)@), n@),
{
    let ghost before = views(out@);
    let mut j: usize = 0;
    while j < out.len()
        invariant
            j <= out.len(),
            before == views(out@),
            forall|q: int| 0 <= q < j ==> !same_path(#[trigger] before[q], n@),
        decreases out.len() - j,
    {
        assert(before[j as int] == out@[j as int]@);
        if path_eq(out[j].as_str(), n.as_str()) {
            return;
        }
        j = j + 1;
    }
    out.push(n.clone());
    assert(views(out@) =~= before.push(n@));
}

impl Config {
    /// Returns the list of file names that were read to make the
    /// configuration, in the order first read, a name that is the same
    /// path as an earlier one left out.
    pub fn loaded_config_files(&self) -> (r: Vec<String>)
        ensures
            views(r@) == dedup_paths(files_loaded(self@.files)),
    {
        let mut files: Vec<String> = Vec::new();
        let ghost fs = self@.files;
        let mut i: usize = 0;
        assert(views(files@) =~= dedup_paths(files_loaded(fs.take(0))));
        while i < self.config_files.len()
            invariant
                i <= self.config_files.len(),
                fs == self@.files,
                fs.len() == self.config_files@.len(),
                views(files@) == dedup_paths(files_loaded(fs.take(i as int))),
            decreases self.config_files.len() - i,
        {
            let names = &self.config_files[i].loaded_files;
            let ghost base = files_loaded(fs.take(i as int));
            proof {
                assert(fs[i as int] == self.config_files@[i as int]@);
                assert(fs.take(i + 1).drop_last() == fs.take(i as int));
                assert(base + views(names@).take(0) =~= base);
            }
            let mut j: usize = 0;
            while j < names.len()
                invariant
                    j <= names.len(),
                    views(files@) == dedup_paths(base + views(names@).take(j as int)),
                decreases names.len() - j,
            {
                proof {
                    assert((base + views(names@).take(j + 1)).drop_last() =~= base + views(names@).take(
                        j as int,
                    ));
                    assert((base + views(names@).take(j + 1)).last() == names@[j as int]@);
                }
                push_path(&mut files, &names[j]);
                j = j + 1;
            }
            assert(base + views(names@).take(j as int) =~= files_loaded(fs.take(i + 1)));
            i = i + 1;
        }
        assert(fs.take(i as int) == fs);
        files
    }

    /// Returns the host names that have entries of their own: the literal
    /// (non-pattern), non-negated names of the `Host` criteria of `Host`
    /// and `Match` stanzas, each once, in the order first seen.
    pub fn enumerate_hosts(&self) -> (r: Vec<String>)
        ensures
            views(r@) == dedup(files_hosts(self@.files)),
    {
        let mut hosts: Vec<String> = Vec::new();
        let ghost fs = self@.files;
        let mut i: usize = 0;
        assert(views(hosts@) =~= dedup(files_hosts(fs.take(0))));
        while i < self.config_files.len()
            invariant
                i <= self.config_files.len(),
                fs == self@.files,
                fs.len() == self.config_files@.len(),
                views(hosts@) == dedup(files_hosts(fs.take(i as int))),
            decreases self.config_files.len() - i,
        {
            let config = &self.config_files[i];
            let ghost gs = config@.groups;
            let ghost base = files_hosts(fs.take(i as int));
            let mut g: usize = 0;
            assert(groups_hosts(gs.take(0)) =~= seq![]);
            assert(base + groups_hosts(gs.take(0)) =~= base);
            while g < config.groups.len()
                invariant
                    g <= config.groups.len(),
                    gs == config@.groups,
                    gs.len() == config.groups@.len(),
                    views(hosts@) == dedup(base + groups_hosts(gs.take(g as int))),
                decreases config.groups.len() - g,
            {
                let group = &config.groups[g];
                assert(gs[g as int] == group@);
                let ghost cs = group@.criteria;
                let ghost gbase = base + groups_hosts(gs.take(g as int));
                let mut c: usize = 0;
                assert(criteria_hosts(cs.take(0)) =~= seq![]);
                assert(gbase + criteria_hosts(cs.take(0)) =~= gbase);
                while c < group.criteria.len()
                    invariant
                        c <= group.criteria.len(),
                        cs == group@.criteria,
                        cs.len() == group.criteria@.len(),
                        views(hosts@) == dedup(gbase + criteria_hosts(cs.take(c as int))),
                    decreases group.criteria.len() - c,
                {
                    assert(cs[c as int] == group.criteria@[c as int]@);
                    assert(cs.take(c + 1).drop_last() == cs.take(c as int));
                    let ghost cbase = gbase + criteria_hosts(cs.take(c as int));
                    match &group.criteria[c] {
                        Criteria::Host(patterns) => {
                            let ghost ps = crate::ssh_pattern::pattern_views(patterns@);
                            let mut p: usize = 0;
                            assert(literal_names(ps.take(0)) =~= seq![]);
                            assert(cbase + literal_names(ps.take(0)) =~= cbase);
                            while p < patterns.len()
                                invariant
                                    p <= patterns.len(),
                                    ps == crate::ssh_pattern::pattern_views(patterns@),
                                    views(hosts@) == dedup(cbase + literal_names(ps.take(p as int))),
                                decreases patterns.len() - p,
                            {
                                let pattern: &Pattern = &patterns[p];
                                assert(ps[p as int] == pattern@);
                                assert(ps.take(p + 1).drop_last() == ps.take(p as int));
                                if pattern.is_literal && !pattern.negated {
                                    let mut one: Vec<String> = Vec::new();
                                    one.push(pattern.original.clone());
                                    proof {
                                        lemma_dedup_append(cbase + literal_names(ps.take(p as int)), one@);
                                        reveal_with_fuel(Seq::fold_left, 2);
                                        assert(views(one@) =~= seq![pattern.original@]);
                                        assert(cbase + literal_names(ps.take(p + 1)) =~= cbase
                                            + literal_names(ps.take(p as int)) + views(one@));
                                    }
                                    push_new_names(&mut hosts, &one);
                                } else {
                                    assert(cbase + literal_names(ps.take(p + 1)) =~= cbase
                                        + literal_names(ps.take(p as int)));
                                }
                                p = p + 1;
                            }
                            assert(ps.take(p as int) == ps);
                            assert(gbase + criteria_hosts(cs.take(c + 1)) =~= cbase + literal_names(ps));
                        },
                        _ => {
                            assert(gbase + criteria_hosts(cs.take(c + 1)) =~= cbase);
                        },
                    }
                    c = c + 1;
                }
                assert(cs.take(c as int) == cs);
                assert(gs.take(g + 1).drop_last() == gs.take(g as int));
                assert(base + groups_hosts(gs.take(g + 1)) =~= gbase + criteria_hosts(cs));
                g = g + 1;
            }
            assert(gs.take(g as int) == gs);
            assert(fs[i as int] == config@);
            assert(fs.take(i + 1).drop_last() == fs.take(i as int));
            i = i + 1;
        }
        assert(fs.take(i as int) == fs);
        hosts
    }
}

// ---------------------------------------------------------------------
// Laws
// ---------------------------------------------------------------------
proof fn lemma_groups_keep(
    gs: Seq<GroupView>,
    host: Seq<char>,
    user: Seq<char>,
    local_user: Seq<char>,
    context: Context,
    target: Map<Seq<char>, Seq<char>>,
    k: Seq<char>,
)
    requires
        target.contains_key(k),
    ensures
        groups_applied(gs, host, user, local_user, context, target).contains_key(k),
        groups_applied(gs, host, user, local_user, context, target)[k] == target[k],
    decreases gs.len(),
{
    if gs.len() > 0 {
        lemma_groups_keep(gs.drop_last(), host, user, local_user, context, target, k);
    }
}

proof fn lemma_files_keep(
    fs: Seq<FileView>,
    host: Seq<char>,
    user: Seq<char>,
    local_user: Seq<char>,
    target: Map<Seq<char>, Seq<char>>,
    k: Seq<char>,
)
    requires
        target.contains_key(k),
    ensures
        files_applied(fs, host, user, local_user, target).contains_key(k),
        files_applied(fs, host, user, local_user, target)[k] == target[k],
    decreases fs.len(),
{
    if fs.len() > 0 {
        lemma_files_keep(fs.drop_last(), host, user, local_user, target, k);
        let t = files_applied(fs.drop_last(), host, user, local_user, target);
        lemma_groups_keep(
            fs.last().groups,
            host,
            user,
            local_user,
            Context::FirstPass,
            fs.last().options.union_prefer_right(t),
            k,
        );
    }
}

/// The value of option `k` in the first stanza of `gs` that applies and
/// sets it.
pub open spec fn first_group_value(
    gs: Seq<GroupView>,
    host: Seq<char>,
    user: Seq<char>,
    local_user: Seq<char>,
    context: Context,
    k: Seq<char>,
) -> Option<Seq<char>>
    decreases gs.len(),
{
    if gs.len() == 0 {
        None
    } else {
        match first_group_value(gs.drop_last(), host, user, local_user, context, k) {
            Some(v) => Some(v),
            None => if group_applies(gs.last(), host, user, local_user, context)
                && gs.last().options.contains_key(k) {
                Some(gs.last().options[k])
            } else {
                None
            },
        }
    }
}

/// The first value of an option wins. A value that is already resolved
/// stays as it is; otherwise the file's options before any stanza come
/// first, then the first stanza that applies and sets the option; an
/// option that none of them sets stays unset.
pub proof fn law_first_value_wins(
    f: FileView,
    host: Seq<char>,
    user: Seq<char>,
    local_user: Seq<char>,
    context: Context,
    target: Map<Seq<char>, Seq<char>>,
    k: Seq<char>,
)
    ensures
        map_get(file_applied(f, host, user, local_user, context, target), k) == if target.contains_key(
            k,
        ) {
            Some(target[k])
        } else if f.options.contains_key(k) {
            Some(f.options[k])
        } else {
            first_group_value(f.groups, host, user, local_user, context, k)
        },
{
    let t0 = f.options.union_prefer_right(target);
    if t0.contains_key(k) {
        lemma_groups_keep(f.groups, host, user, local_user, context, t0, k);
    } else {
        lemma_groups_first(f.groups, host, user, local_user, context, t0, k);
    }
}

proof fn lemma_groups_first(
    gs: Seq<GroupView>,
    host: Seq<char>,
    user: Seq<char>,
    local_user: Seq<char>,
    context: Context,
    target: Map<Seq<char>, Seq<char>>,
    k: Seq<char>,
)
    requires
        !target.contains_key(k),
    ensures
        map_get(groups_applied(gs, host, user, local_user, context, target), k)
            == first_group_value(gs, host, user, local_user, context, k),
    decreases gs.len(),
{
    if gs.len() > 0 {
        lemma_groups_first(gs.drop_last(), host, user, local_user, context, target, k);
        let t = groups_applied(gs.drop_last(), host, user, local_user, context, target);
        if t.contains_key(k) {
            lemma_groups_keep(seq![gs.last()], host, user, local_user, context, t, k);
            assert(seq![gs.last()].drop_last() =~= Seq::<GroupView>::empty());
        }
    }
}

/// A value set with `set_option` takes precedence over any value found
/// in the config files: the options of a host hold it as set, and so
/// does the resolved configuration for an option whose value is not
/// expanded.
pub proof fn law_set_option_precedence(
    c: ConfigView,
    h: LocalHostView,
    host: Seq<char>,
    k: Seq<char>,
    v: Seq<char>,
)
    ensures
        matched_options(ConfigView { options: c.options.insert(k, v), ..c }, host).contains_key(k),
        matched_options(ConfigView { options: c.options.insert(k, v), ..c }, host)[k] == v,
        tokens_for(k) is None && !expands_environment(k) ==> host_config(
            ConfigView { options: c.options.insert(k, v), ..c },
            h,
            host,
        ).contains_key(k),
        tokens_for(k) is None && !expands_environment(k) ==> host_config(
            ConfigView { options: c.options.insert(k, v), ..c },
            h,
            host,
        )[k] == v,
{
    let c2 = ConfigView { options: c.options.insert(k, v), ..c };
    lemma_files_keep(c2.files, host, local_user(c2), local_user(c2), c2.options, k);
    if tokens_for(k) is None && !expands_environment(k) {
        let m = options_with_hostname(c2, h, host);
        assert(k != "hostname"@);
        assert(m[k] == v);
        let e = expanded_options(c2, h, host);
        assert(e.contains_key(k) && e[k] == v);
    }
}

/// Every identity file entry that applies gives exactly one resolved
/// path: paths are expanded one by one and never split, so a path that
/// holds a space survives.
pub proof fn law_identity_paths_not_split(c: ConfigView, h: LocalHostView, host: Seq<char>)
    ensures
        resolved_identity_files(c, h, host).len() == raw_identity_files(c, h, host).len(),
{
}

/// The OpenSSH default identities are used only when no `IdentityFile`
/// entry applies; otherwise the entries that apply are the identity
/// files, in declaration order.
pub proof fn law_identity_defaults_only_when_none(c: ConfigView, h: LocalHostView, host: Seq<char>)
    ensures
        files_identities(c.files, host, local_user(c), local_user(c)).len() > 0 ==> raw_identity_files(
            c,
            h,
            host,
        ) == files_identities(c.files, host, local_user(c), local_user(c)),
        files_identities(c.files, host, local_user(c), local_user(c)).len() == 0 ==> raw_identity_files(
            c,
            h,
            host,
        ) == match home_of(c, h) {
            Some(home) => identity_defaults(home),
            None => Seq::<Seq<char>>::empty(),
        },
{
}

/// The entries before any stanza come first, then those of the stanzas
/// that apply, each in declaration order.
pub proof fn law_identity_order(
    f: FileView,
    host: Seq<char>,
    user: Seq<char>,
    local_user: Seq<char>,
    context: Context,
)
    ensures
        file_identities(f, host, user, local_user, context).take(f.identity_files.len() as int)
            == f.identity_files,
{
    let a = f.identity_files;
    let b = groups_identities(f.groups, host, user, local_user, context);
    assert((a + b).take(a.len() as int) =~= a);
}

proof fn lemma_dedup_props(s: Seq<Seq<char>>)
    ensures
        dedup(s).no_duplicates(),
        forall|x: Seq<char>| dedup(s).contains(x) <==> s.contains(x),
    decreases s.len(),
{
    if s.len() > 0 {
        let d = dedup(s.drop_last());
        lemma_dedup_props(s.drop_last());
        assert forall|x: Seq<char>| s.contains(x) <==> (s.drop_last().contains(x) || x == s.last()) by {
            if s.contains(x) {
                let i = choose|i: int| 0 <= i < s.len() && s[i] == x;
                if i < s.len() - 1 {
                    assert(s.drop_last()[i] == x);
                }
            }
            if s.drop_last().contains(x) {
                let i = choose|i: int| 0 <= i < s.len() - 1 && s.drop_last()[i] == x;
                assert(s[i] == x);
            }
            if x == s.last() {
                assert(s[s.len() - 1] == x);
            }
        }
        if !d.contains(s.last()) {
            assert forall|x: Seq<char>| d.push(s.last()).contains(x) <==> (d.contains(x) || x
                == s.last()) by {
                if d.push(s.last()).contains(x) {
                    let i = choose|i: int| 0 <= i < d.len() + 1 && d.push(s.last())[i] == x;
                    if i < d.len() {
                        assert(d[i] == x);
                    }
                }
                if d.contains(x) {
                    let i = choose|i: int| 0 <= i < d.len() && d[i] == x;
                    assert(d.push(s.last())[i] == x);
                }
                if x == s.last() {
                    assert(d.push(s.last())[d.len() as int] == x);
                }
            }
        }
    }
}

/// `x` first occurs in `s` at position `a`.
pub open spec fn first_at(s: Seq<Seq<char>>, x: Seq<char>, a: int) -> bool {
    0 <= a < s.len() && s[a] == x && forall|k: int| 0 <= k < a ==> #[trigger] s[k] != x
}

proof fn lemma_dedup_order(s: Seq<Seq<char>>, i: int, j: int, a: int, b: int)
    requires
        0 <= i < j < dedup(s).len(),
        first_at(s, dedup(s)[i], a),
        first_at(s, dedup(s)[j], b),
    ensures
        a < b,
    decreases s.len(),
{
    assert(s.len() > 0) by {
        if s.len() == 0 {
            assert(dedup(s).len() == 0);
        }
    }
    let t = s.drop_last();
    let d0 = dedup(t);
    let d = dedup(s);
    assert(d == push_new(d0, s.last()));
    lemma_dedup_props(t);
    assert(i < d0.len());
    assert(d[i] == d0[i]);
    assert(d0.contains(d0[i]));
    assert(t.contains(d0[i]));
    let p = choose|p: int| 0 <= p < t.len() && t[p] == d0[i];
    assert(t[p] == s[p]);
    assert(s[p] == d[i]);
    assert(a <= p);
    assert(first_at(t, d0[i], a)) by {
        assert forall|k: int| 0 <= k < a implies #[trigger] t[k] != d0[i] by {
            assert(t[k] == s[k]);
        }
    }
    if j < d0.len() {
        assert(d[j] == d0[j]);
        assert(d0.contains(d0[j]));
        assert(t.contains(d0[j]));
        let q = choose|q: int| 0 <= q < t.len() && t[q] == d0[j];
        assert(t[q] == s[q]);
        assert(s[q] == d[j]);
        assert(first_at(t, d0[j], b)) by {
            assert forall|k: int| 0 <= k < b implies #[trigger] t[k] != d0[j] by {
                assert(t[k] == s[k]);
            }
        }
        lemma_dedup_order(t, i, j, a, b);
    } else {
        assert(d[j] == s.last());
        assert(!d0.contains(s.last()));
        assert(!t.contains(s.last()));
        if b < s.len() - 1 {
            assert(t[b] == s[b]);
        }
    }
}

/// `enumerate_hosts` names each literal, non-negated `Host` name of the
/// stanzas once, nothing else, and in the order of their first
/// occurrence (configs in the order added, stanzas in file order).
pub proof fn law_enumerate_hosts_once(fs: Seq<FileView>)
    ensures
        dedup(files_hosts(fs)).no_duplicates(),
        forall|x: Seq<char>| dedup(files_hosts(fs)).contains(x) <==> files_hosts(fs).contains(x),
        forall|i: int, j: int, a: int, b: int|
            0 <= i < j < dedup(files_hosts(fs)).len() && #[trigger] first_at(
                files_hosts(fs),
                dedup(files_hosts(fs))[i],
                a,
            ) && #[trigger] first_at(files_hosts(fs), dedup(files_hosts(fs))[j], b) ==> a < b,
{
    lemma_dedup_props(files_hosts(fs));
    assert forall|i: int, j: int, a: int, b: int|
        0 <= i < j < dedup(files_hosts(fs)).len() && #[trigger] first_at(
            files_hosts(fs),
            dedup(files_hosts(fs))[i],
            a,
        ) && #[trigger] first_at(files_hosts(fs), dedup(files_hosts(fs))[j], b) implies a < b by {
        lemma_dedup_order(files_hosts(fs), i, j, a, b);
    }
}

proof fn lemma_dedup_paths_props(s: Seq<Seq<char>>)
    ensures
        forall|i: int, j: int|
            0 <= i < j < dedup_paths(s).len() ==> !same_path(
                #[trigger] dedup_paths(s)[i],
                #[trigger] dedup_paths(s)[j],
            ),
        forall|x: Seq<char>| #[trigger] dedup_paths(s).contains(x) ==> s.contains(x),
        forall|k: int|
            0 <= k < s.len() ==> dedup_paths(s).contains(#[trigger] s[k]) || has_same_path(dedup_paths(s), s[k]),
    decreases s.len(),
{
    if s.len() > 0 {
        let d0 = dedup_paths(s.drop_last());
        let x = s.last();
        lemma_dedup_paths_props(s.drop_last());
        let d = dedup_paths(s);
        assert forall|y: Seq<char>| #[trigger] d.contains(y) implies s.contains(y) by {
            let i = choose|i: int| 0 <= i < d.len() && d[i] == y;
            if i < d0.len() {
                assert(d0[i] == y);
                assert(d0.contains(y));
                let k = choose|k: int| 0 <= k < s.drop_last().len() && s.drop_last()[k] == y;
                assert(s[k] == y);
            } else {
                assert(s[s.len() - 1] == y);
            }
        }
        assert forall|k: int| 0 <= k < s.len() implies d.contains(#[trigger] s[k]) || has_same_path(d, s[k]) by {
            if k < s.len() - 1 {
                assert(s[k] == s.drop_last()[k]);
                if d0.contains(s[k]) {
                    let q = choose|q: int| 0 <= q < d0.len() && d0[q] == s[k];
                    assert(d[q] == d0[q]);
                } else {
                    assert(has_same_path(d0, s.drop_last()[k]));
                    let q = choose|q: int| 0 <= q < d0.len() && same_path(#[trigger] d0[q], s.drop_last()[k]);
                    assert(d[q] == d0[q]);
                }
            } else if !has_same_path(d0, x) {
                assert(d[d0.len() as int] == x);
            } else {
                let q = choose|q: int| 0 <= q < d0.len() && same_path(#[trigger] d0[q], x);
                assert(d[q] == d0[q]);
            }
        }
        assert forall|i: int, j: int| 0 <= i < j < d.len() implies !same_path(
            #[trigger] d[i],
            #[trigger] d[j],
        ) by {
            if j < d0.len() {
                assert(d[i] == d0[i] && d[j] == d0[j]);
            } else {
                assert(d[i] == d0[i]);
                assert(d[j] == x);
            }
        }
    }
}

/// `loaded_config_files` names only files that were read, no two the
/// same path (a later name is checked against each earlier one), and
/// every file that was read, or a name that is the same path.
pub proof fn law_loaded_files_once(fs: Seq<FileView>)
    ensures
        forall|i: int, j: int|
            0 <= i < j < dedup_paths(files_loaded(fs)).len() ==> !same_path(
                #[trigger] dedup_paths(files_loaded(fs))[i],
                #[trigger] dedup_paths(files_loaded(fs))[j],
            ),
        forall|x: Seq<char>| #[trigger] dedup_paths(files_loaded(fs)).contains(x) ==> files_loaded(fs).contains(x),
        forall|k: int|
            0 <= k < files_loaded(fs).len() ==> dedup_paths(files_loaded(fs)).contains(
                #[trigger] files_loaded(fs)[k],
            ) || has_same_path(dedup_paths(files_loaded(fs)), files_loaded(fs)[k]),
{
    lemma_dedup_paths_props(files_loaded(fs));
}

/// Host options after the paths `ps` are pushed, in order.
pub open spec fn push_paths(o: HostOptionsView, ps: Seq<Seq<char>>) -> HostOptionsView
    decreases ps.len(),
{
    if ps.len() == 0 {
        o
    } else {
        let p = push_paths(o, ps.drop_last());
        HostOptionsView {
            options: pushed_identity(p.options, ps.last()),
            identity_files: p.identity_files.push(ps.last()),
        }
    }
}

/// Empty host options.
pub open spec fn empty_host_options() -> HostOptionsView {
    HostOptionsView { options: Map::empty(), identity_files: seq![] }
}

/// Pushing identity paths keeps the typed list and the flat map in
/// step: from empty host options, the list is the paths in order and
/// `identityfile` is them joined with single spaces. (A path that is
/// empty breaks the spacing: pushing `""` then `"b"` gives `"b"`.)
pub proof fn law_push_keeps_views_in_step(ps: Seq<Seq<char>>)
    requires
        forall|i: int| 0 <= i < ps.len() ==> #[trigger] ps[i].len() > 0,
    ensures
        push_paths(empty_host_options(), ps).identity_files == ps,
        push_paths(empty_host_options(), ps).options == if ps.len() == 0 {
            Map::<Seq<char>, Seq<char>>::empty()
        } else {
            Map::<Seq<char>, Seq<char>>::empty().insert("identityfile"@, join(ps, seq![' ']))
        },
    decreases ps.len(),
{
    if ps.len() > 0 {
        let q = ps.drop_last();
        assert forall|i: int| 0 <= i < q.len() implies #[trigger] q[i].len() > 0 by {
            assert(q[i] == ps[i]);
        }
        law_push_keeps_views_in_step(q);
        let e = Map::<Seq<char>, Seq<char>>::empty();
        if q.len() == 0 {
            assert(push_paths(empty_host_options(), q).identity_files.push(ps.last()) =~= ps);
            assert(join(ps, seq![' ']) == ps[0]);
        } else {
            assert(q.push(ps.last()) =~= ps);
            assert(join(q, seq![' ']).len() > 0) by {
                if q.len() == 1 {
                    assert(q[0].len() > 0);
                }
            }
            assert(e.insert("identityfile"@, join(q, seq![' '])).insert(
                "identityfile"@,
                join(q, seq![' ']) + seq![' '] + ps.last(),
            ) =~= e.insert("identityfile"@, join(ps, seq![' '])));
        }
    }
}

/// Host options made from a flat map recover the pushed identity paths
/// when no path is empty or holds white space (the flat value is split
/// on white space).
pub proof fn law_flat_map_round_trip(ps: Seq<Seq<char>>)
    requires
        forall|i: int| 0 <= i < ps.len() ==> #[trigger] ps[i].len() > 0 && crate::text::no_ws(ps[i]),
    ensures
        split_identities(push_paths(empty_host_options(), ps).options) == ps,
{
    assert forall|i: int| 0 <= i < ps.len() implies #[trigger] ps[i].len() > 0 by {
        assert(ps[i].len() > 0 && crate::text::no_ws(ps[i]));
    }
    law_push_keeps_views_in_step(ps);
    if ps.len() > 0 {
        crate::text::lemma_words_of_join(ps);
    }
}

} // verus!
