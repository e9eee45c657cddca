//! Reading the text of an ssh_config(5) file into stanzas and options.
use vstd::prelude::*;
use crate::config_map::ConfigMap;
use crate::ssh_pattern::{
    criteria_views, entry_paths, pattern_of, pattern_views, Context, Criteria, CriteriaView,
    GroupView, IdentityFileEntry, MatchGroup, Pattern, PatternView,
};
use crate::text::{
    append_str, chars_of, is_ws, is_ws_exec, lines, lines_exec, split_exec, split_on, str_eq,
    string_of, sub_chars, to_lowercase, trim, trim_exec, trim_start, trim_start_exec,
    unicode_lowercase, views,
};
use crate::tokenizer::{argv_split, argv_split_spec};
use crate::text::join;

verus! {

// ---------------------------------------------------------------------
// What a line says
// ---------------------------------------------------------------------
/// A character that ends a directive's keyword.
pub open spec fn is_key_end(c: char) -> bool {
    c == '=' || is_ws(c)
}

/// The first position at or after `i` that ends a keyword.
pub open spec fn key_end_from(t: Seq<char>, i: int) -> Option<int>
    decreases t.len() - i,
{
    if i < 0 || i >= t.len() {
        None
    } else if is_key_end(t[i]) {
        Some(i)
    } else {
        key_end_from(t, i + 1)
    }
}

/// Directives whose value is the rest of the line, verbatim.
pub open spec fn is_command_key(k: Seq<char>) -> bool {
    k == "proxycommand"@ || k == "localcommand"@ || k == "remotecommand"@ || k
        == "knownhostscommand"@
}

/// What a line of the file says.
pub enum LineKind {
    /// Blank, a comment, no value, or a value that does not tokenize.
    Skip,
    Include(Seq<Seq<char>>),
    Host(Seq<Seq<char>>),
    Match(Seq<Seq<char>>),
    /// A keyword (lower-cased) and its value.
    Setting(Seq<char>, Seq<char>),
}

/// What a line of the file says.
pub open spec fn classify_line(line: Seq<char>) -> LineKind {
    let t = trim(line);
    if t.len() == 0 || t[0] == '#' {
        LineKind::Skip
    } else {
        match key_end_from(t, 0) {
            None => LineKind::Skip,
            Some(sep) => {
                let key = unicode_lowercase(trim(t.take(sep)));
                let rest = trim_start(t.skip(sep + 1));
                match argv_split_spec(rest, true) {
                    Err(_) => LineKind::Skip,
                    Ok(tokens) => {
                        if tokens.len() == 0 {
                            LineKind::Skip
                        } else if key == "include"@ {
                            LineKind::Include(tokens)
                        } else if key == "host"@ {
                            LineKind::Host(tokens)
                        } else if key == "match"@ {
                            LineKind::Match(tokens)
                        } else if is_command_key(key) {
                            LineKind::Setting(key, rest)
                        } else {
                            LineKind::Setting(key, tokens[0])
                        }
                    },
                }
            },
        }
    }
}

// ---------------------------------------------------------------------
// Stanzas
// ---------------------------------------------------------------------
/// The pattern that one entry of a pattern list stands for: a leading
/// `!` negates it.
pub open spec fn entry_pattern(p: Seq<char>) -> PatternView {
    if p.len() > 0 && p[0] == '!' {
        pattern_of(p.drop_first(), true)
    } else {
        pattern_of(p, false)
    }
}

/// The patterns of a comma-separated list, each entry trimmed.
pub open spec fn pattern_list(v: Seq<char>) -> Seq<PatternView> {
    split_on(v, ',').map_values(|p: Seq<char>| entry_pattern(trim(p)))
}

/// The patterns of the tokens of a `Host` line.
pub open spec fn patterns_from_tokens(ts: Seq<Seq<char>>) -> Seq<PatternView> {
    ts.map_values(|t: Seq<char>| entry_pattern(t))
}

/// The criteria and pass of a `Match` line, read from token `i` on.
pub open spec fn match_criteria(
    ts: Seq<Seq<char>>,
    i: int,
    crit: Seq<CriteriaView>,
    ctx: Context,
) -> (Seq<CriteriaView>, Context)
    decreases ts.len() - i,
{
    if i < 0 || i >= ts.len() {
        (crit, ctx)
    } else {
        let name = unicode_lowercase(ts[i]);
        let arg = if i + 1 < ts.len() {
            ts[i + 1]
        } else {
            seq![]
        };
        let next = if i + 1 < ts.len() {
            i + 2
        } else {
            ts.len() as int
        };
        if name == "all"@ {
            match_criteria(ts, i + 1, crit.push(CriteriaView::All), ctx)
        } else if name == "canonical"@ {
            match_criteria(ts, i + 1, crit, Context::Canonical)
        } else if name == "final"@ {
            match_criteria(ts, i + 1, crit, Context::Final)
        } else if name == "exec"@ {
            let cmd = if i + 1 < ts.len() {
                ts[i + 1]
            } else {
                "false"@
            };
            match_criteria(ts, next, crit.push(CriteriaView::Exec(cmd)), ctx)
        } else if name == "host"@ {
            match_criteria(ts, next, crit.push(CriteriaView::Host(pattern_list(arg))), ctx)
        } else if name == "originalhost"@ {
            match_criteria(
                ts,
                next,
                crit.push(CriteriaView::OriginalHost(pattern_list(arg))),
                ctx,
            )
        } else if name == "user"@ {
            match_criteria(ts, next, crit.push(CriteriaView::User(pattern_list(arg))), ctx)
        } else if name == "localuser"@ {
            match_criteria(ts, next, crit.push(CriteriaView::LocalUser(pattern_list(arg))), ctx)
        } else {
            (crit, ctx)
        }
    }
}

/// An option added to a map: the first value of a keyword stays, except
/// that `identityfile` values gather, separated by a space.
pub open spec fn add_option(m: Map<Seq<char>, Seq<char>>, k: Seq<char>, v: Seq<char>) -> Map<
    Seq<char>,
    Seq<char>,
> {
    if !m.contains_key(k) {
        m.insert(k, v)
    } else if k == "identityfile"@ {
        m.insert(k, m[k] + seq![' '] + v)
    } else {
        m
    }
}

/// A file as values.
pub struct FileView {
    pub options: Map<Seq<char>, Seq<char>>,
    pub groups: Seq<GroupView>,
    pub loaded_files: Seq<Seq<char>>,
    pub identity_files: Seq<Seq<char>>,
}

/// A fresh stanza.
pub open spec fn new_group(crit: Seq<CriteriaView>, ctx: Context) -> GroupView {
    GroupView {
        criteria: crit,
        context: ctx,
        options: Map::empty(),
        identity_files: seq![],
    }
}

/// A stanza with one more option.
pub open spec fn group_with_setting(g: GroupView, k: Seq<char>, v: Seq<char>) -> GroupView {
    GroupView {
        criteria: g.criteria,
        context: g.context,
        options: add_option(g.options, k, v),
        identity_files: if k == "identityfile"@ {
            g.identity_files.push(v)
        } else {
            g.identity_files
        },
    }
}

/// The file after one more line: a `Host` or `Match` line opens a
/// stanza, a setting goes to the last stanza (or before any stanza, to
/// the file), and the rest changes nothing (an `Include` line is left to
/// whoever reads the files it names).
pub open spec fn apply_line(f: FileView, line: Seq<char>) -> FileView {
    match classify_line(line) {
        LineKind::Host(ts) => FileView {
            groups: f.groups.push(
                new_group(seq![CriteriaView::Host(patterns_from_tokens(ts))], Context::FirstPass),
            ),
            ..f
        },
        LineKind::Match(ts) => {
            let (crit, ctx) = match_criteria(ts, 0, seq![], Context::FirstPass);
            FileView { groups: f.groups.push(new_group(crit, ctx)), ..f }
        },
        LineKind::Setting(k, v) => {
            if f.groups.len() > 0 {
                FileView {
                    groups: f.groups.update(
                        f.groups.len() - 1,
                        group_with_setting(f.groups.last(), k, v),
                    ),
                    ..f
                }
            } else {
                FileView {
                    options: add_option(f.options, k, v),
                    identity_files: if k == "identityfile"@ {
                        f.identity_files.push(v)
                    } else {
                        f.identity_files
                    },
                    ..f
                }
            }
        },
        _ => f,
    }
}

/// The file after the lines `ls`, in order.
pub open spec fn apply_lines(f: FileView, ls: Seq<Seq<char>>) -> FileView
    decreases ls.len(),
{
    if ls.len() == 0 {
        f
    } else {
        apply_line(apply_lines(f, ls.drop_last()), ls.last())
    }
}

/// The parsed options of one file.
#[derive(Debug, PartialEq, Eq, Clone)]
pub struct ParsedConfigFile {
    /// options that appeared before any `Host` stanza
    pub options: ConfigMap,
    /// the stanzas, in order
    pub groups: Vec<MatchGroup>,
    /// the names of the files read
    pub loaded_files: Vec<String>,
    /// `IdentityFile` entries declared before any stanza, in order
    pub identity_files: Vec<IdentityFileEntry>,
}

/// The views of a list of stanzas.
pub open spec fn group_views(gs: Seq<MatchGroup>) -> Seq<GroupView> {
    gs.map_values(|g: MatchGroup| g@)
}

impl View for ParsedConfigFile {
    type V = FileView;

    open spec fn view(&self) -> FileView {
        FileView {
            options: self.options@,
            groups: group_views(self.groups@),
            loaded_files: views(self.loaded_files@),
            identity_files: entry_paths(self.identity_files@),
        }
    }
}

/// What an executable reading of a line found.
enum Line {
    Skip,
    Include(Vec<String>),
    Host(Vec<String>),
    Match(Vec<String>),
    Setting(String, String),
}

/// The first position at or after `from` that ends a keyword.
fn find_key_end(t: &Vec<char>) -> (r: Option<usize>)
    ensures
        match r {
            Some(i) => key_end_from(t@, 0) == Some(i as int) && i < t.len(),
            None => key_end_from(t@, 0) is None,
        },
{
    let mut i: usize = 0;
    while i < t.len()
        invariant
            i <= t.len(),
            key_end_from(t@, i as int) == key_end_from(t@, 0),
        decreases t.len() - i,
    {
        let c = t[i];
        if c == '=' || is_ws_exec(c) {
            return Some(i);
        }
        i = i + 1;
    }
    None
}

/// What a line says.
fn classify(line: &str) -> (r: Line)
    ensures
        match (r, classify_line(line@)) {
            (Line::Skip, LineKind::Skip) => true,
            (Line::Include(a), LineKind::Include(b)) => views(a@) == b,
            (Line::Host(a), LineKind::Host(b)) => views(a@) == b,
            (Line::Match(a), LineKind::Match(b)) => views(a@) == b,
            (Line::Setting(k, v), LineKind::Setting(k2, v2)) => k@ == k2 && v@ == v2,
            _ => false,
        },
{
    let cs = chars_of(line);
    let t = trim_exec(&cs);
    if t.len() == 0 || t[0] == '#' {
        return Line::Skip;
    }
    let sep = match find_key_end(&t) {
        None => {
            return Line::Skip;
        },
        Some(sep) => sep,
    };
    let k = sub_chars(&t, 0, sep);
    assert(k@ == t@.take(sep as int));
    let kt = trim_exec(&k);
    let kts = string_of(&kt);
    let key = to_lowercase(kts.as_str());
    let after = sub_chars(&t, sep + 1, t.len());
    assert(after@ == t@.skip(sep + 1));
    let rest_chars = trim_start_exec(&after);
    let rest = string_of(&rest_chars);
    let tokens = match argv_split(rest.as_str(), true) {
        Ok(ts) => ts,
        Err(_) => {
            return Line::Skip;
        },
    };
    if tokens.len() == 0 {
        return Line::Skip;
    }
    if str_eq(key.as_str(), "include") {
        return Line::Include(tokens);
    }
    if str_eq(key.as_str(), "host") {
        return Line::Host(tokens);
    }
    if str_eq(key.as_str(), "match") {
        return Line::Match(tokens);
    }
    let is_command = str_eq(key.as_str(), "proxycommand") || str_eq(key.as_str(), "localcommand")
        || str_eq(key.as_str(), "remotecommand") || str_eq(key.as_str(), "knownhostscommand");
    if is_command {
        Line::Setting(key, rest)
    } else {
        let first = tokens[0].clone();
        assert(views(tokens@)[0] == tokens@[0]@);
        Line::Setting(key, first)
    }
}

/// The pattern for one entry of a pattern list.
fn entry_pattern_exec(p: &Vec<char>) -> (r: Pattern)
    ensures
        r@ == entry_pattern(p@),
{
    if p.len() > 0 && p[0] == '!' {
        let rest = sub_chars(p, 1, p.len());
        assert(rest@ == p@.drop_first());
        let s = string_of(&rest);
        Pattern::new(s.as_str(), true)
    } else {
        let s = string_of(p);
        Pattern::new(s.as_str(), false)
    }
}

/// The patterns of a comma-separated list.
fn parse_pattern_list(v: &str) -> (r: Vec<Pattern>)
    ensures
        pattern_views(r@) == pattern_list(v@),
{
    let cs = chars_of(v);
    let parts = split_exec(&cs, ',');
    let ghost pv = parts@.map_values(|w: Vec<char>| w@);
    let mut out: Vec<Pattern> = Vec::new();
    let mut i: usize = 0;
    while i < parts.len()
        invariant
            i <= parts.len(),
            pv == parts@.map_values(|w: Vec<char>| w@),
            pv == split_on(v@, ','),
            pattern_views(out@) == pv.take(i as int).map_values(
                |p: Seq<char>| entry_pattern(trim(p)),
            ),
        decreases parts.len() - i,
    {
        let p = trim_exec(&parts[i]);
        let pat = entry_pattern_exec(&p);
        let ghost prev = out@;
        out.push(pat);
        proof {
            assert(out@ == prev.push(pat));
            assert(pv[i as int] == parts@[i as int]@);
            assert(pattern_views(out@) =~= pattern_views(prev).push(pat@));
            assert(pv.take(i + 1).map_values(|p: Seq<char>| entry_pattern(trim(p))) =~= pv.take(
                i as int,
            ).map_values(|p: Seq<char>| entry_pattern(trim(p))).push(entry_pattern(trim(pv[i as int]))));
        }
        i = i + 1;
    }
    assert(pv.take(i as int) == pv);
    out
}

/// The patterns of the tokens of a `Host` line.
fn patterns_from_token_list(ts: &Vec<String>) -> (r: Vec<Pattern>)
    ensures
        pattern_views(r@) == patterns_from_tokens(views(ts@)),
{
    let ghost tv = views(ts@);
    let mut out: Vec<Pattern> = Vec::new();
    let mut i: usize = 0;
    while i < ts.len()
        invariant
            i <= ts.len(),
            tv == views(ts@),
            pattern_views(out@) == patterns_from_tokens(tv.take(i as int)),
        decreases ts.len() - i,
    {
        let t = chars_of(ts[i].as_str());
        let pat = entry_pattern_exec(&t);
        let ghost prev = out@;
        out.push(pat);
        proof {
            assert(out@ == prev.push(pat));
            assert(tv[i as int] == ts@[i as int]@);
            assert(pattern_views(out@) =~= pattern_views(prev).push(pat@));
            assert(patterns_from_tokens(tv.take(i + 1)) =~= patterns_from_tokens(tv.take(i as int)).push(
                entry_pattern(tv[i as int]),
            ));
        }
        i = i + 1;
    }
    assert(tv.take(i as int) == tv);
    out
}

/// The criteria and pass of a `Match` line.
fn parse_match_criteria(ts: &Vec<String>) -> (r: (Vec<Criteria>, Context))
    ensures
        (criteria_views(r.0@), r.1) == match_criteria(views(ts@), 0, seq![], Context::FirstPass),
{
    let ghost tv = views(ts@);
    let mut criteria: Vec<Criteria> = Vec::new();
    let mut context = Context::FirstPass;
    let mut i: usize = 0;
    let mut stop = false;
    assert(criteria_views(criteria@) =~= seq![]);
    while i < ts.len() && !stop
        invariant
            tv == views(ts@),
            i <= ts.len(),
            stop ==> match_criteria(tv, i as int, criteria_views(criteria@), context) == (
                criteria_views(criteria@),
                context,
            ),
            match_criteria(tv, i as int, criteria_views(criteria@), context) == match_criteria(
                tv,
                0,
                seq![],
                Context::FirstPass,
            ),
        decreases ts.len() - i + (if stop { 0int } else { 1int }),
    {
        let name = to_lowercase(ts[i].as_str());
        let ghost prev = criteria@;
        proof {
            assert(tv[i as int] == ts@[i as int]@);
            if i + 1 < ts.len() {
                assert(tv[i + 1] == ts@[i + 1]@);
            }
        }
        if str_eq(name.as_str(), "all") {
            criteria.push(Criteria::All);
            assert(criteria_views(criteria@) =~= criteria_views(prev).push(CriteriaView::All));
            i = i + 1;
        } else if str_eq(name.as_str(), "canonical") {
            context = Context::Canonical;
            i = i + 1;
        } else if str_eq(name.as_str(), "final") {
            context = Context::Final;
            i = i + 1;
        } else if str_eq(name.as_str(), "exec") {
            let cmd = if i + 1 < ts.len() {
                ts[i + 1].clone()
            } else {
                String::from_str("false")
            };
            let c = Criteria::Exec(cmd);
            criteria.push(c);
            assert(criteria_views(criteria@) =~= criteria_views(prev).push(c@));
            if i + 1 < ts.len() {
                i = i + 2;
            } else {
                i = ts.len();
            }
        } else {
            let is_host = str_eq(name.as_str(), "host");
            let is_orig = str_eq(name.as_str(), "originalhost");
            let is_user = str_eq(name.as_str(), "user");
            let is_local = str_eq(name.as_str(), "localuser");
            if !(is_host || is_orig || is_user || is_local) {
                stop = true;
                continue;
            }
            let pats = if i + 1 < ts.len() {
                parse_pattern_list(ts[i + 1].as_str())
            } else {
                proof {
                    reveal_strlit("");
                }
                parse_pattern_list("")
            };
            let c = if is_host {
                Criteria::Host(pats)
            } else if is_orig {
                Criteria::OriginalHost(pats)
            } else if is_user {
                Criteria::User(pats)
            } else {
                Criteria::LocalUser(pats)
            };
            criteria.push(c);
            assert(criteria_views(criteria@) =~= criteria_views(prev).push(c@));
            if i + 1 < ts.len() {
                i = i + 2;
            } else {
                i = ts.len();
            }
        }
    }
    (criteria, context)
}

/// Adds an option to a map: the first value of a keyword stays, except
/// that `identityfile` values gather.
fn add_option_exec(options: &mut ConfigMap, k: String, v: &str)
    ensures
        final(options)@ == add_option(old(options)@, k@, v@),
{
    let existing = match options.get(k.as_str()) {
        Some(e) => Some(e.clone()),
        None => None,
    };
    match existing {
        None => {
            let vs = String::from_str(v);
            assert(vs@ == v@);
            options.insert(k, vs);
        },
        Some(e) => {
            assert(e@ == old(options)@[k@]);
            if str_eq(k.as_str(), "identityfile") {
                let mut joined = chars_of(e.as_str());
                joined.push(' ');
                append_str(&mut joined, v);
                let js = string_of(&joined);
                assert(js@ == e@ + seq![' '] + v@);
                options.insert(k, js);
            }
        },
    }
}

impl ParsedConfigFile {
    /// An empty file, read from `source_file` if that is named.
    pub fn new(source_file: Option<String>) -> (r: Self)
        ensures
            r@.options == Map::<Seq<char>, Seq<char>>::empty(),
            r@.groups == Seq::<GroupView>::empty(),
            r@.identity_files == Seq::<Seq<char>>::empty(),
            r@.loaded_files == match source_file {
                Some(s) => seq![s@],
                None => Seq::<Seq<char>>::empty(),
            },
    {
        let mut loaded_files: Vec<String> = Vec::new();
        match source_file {
            Some(s) => loaded_files.push(s),
            None => {},
        }
        let r = ParsedConfigFile {
            options: ConfigMap::new(),
            groups: Vec::new(),
            loaded_files,
            identity_files: Vec::new(),
        };
        assert(r@.groups =~= seq![]);
        assert(r@.identity_files =~= seq![]);
        assert(r@.loaded_files =~= match source_file {
            Some(s) => seq![s@],
            None => Seq::<Seq<char>>::empty(),
        });
        r
    }

    /// Notes that `path` was read into this file.
    pub fn record_loaded_file(&mut self, path: String)
        ensures
            final(self)@ == (FileView { loaded_files: old(self)@.loaded_files.push(path@), ..old(self)@ }),
    {
        self.loaded_files.push(path);
        assert(views(self.loaded_files@) =~= views(old(self).loaded_files@).push(path@));
    }

    /// Reads one line into this file. An `Include` line changes nothing
    /// here; its tokens are handed back, for the caller to read the files
    /// they name.
    pub fn parse_line(&mut self, line: &str) -> (r: Option<Vec<String>>)
        ensures
            final(self)@ == apply_line(old(self)@, line@),
            match r {
                Some(ts) => classify_line(line@) == LineKind::Include(views(ts@)),
                None => !(classify_line(line@) is Include),
            },
    {
        match classify(line) {
            Line::Skip => None,
            Line::Include(ts) => Some(ts),
            Line::Host(ts) => {
                let pats = patterns_from_token_list(&ts);
                let crit = Criteria::Host(pats);
                let mut criteria: Vec<Criteria> = Vec::new();
                criteria.push(crit);
                let g = MatchGroup {
                    criteria,
                    options: ConfigMap::new(),
                    context: Context::FirstPass,
                    identity_files: Vec::new(),
                };
                let ghost prev = self.groups@;
                self.groups.push(g);
                proof {
                    assert(criteria_views(g.criteria@) =~= seq![crit@]);
                    assert(entry_paths(g.identity_files@) =~= seq![]);
                    assert(group_views(self.groups@) =~= group_views(prev).push(g@));
                }
                None
            },
            Line::Match(ts) => {
                let (criteria, context) = parse_match_criteria(&ts);
                let g = MatchGroup {
                    criteria,
                    options: ConfigMap::new(),
                    context,
                    identity_files: Vec::new(),
                };
                let ghost prev = self.groups@;
                self.groups.push(g);
                proof {
                    assert(entry_paths(g.identity_files@) =~= seq![]);
                    assert(group_views(self.groups@) =~= group_views(prev).push(g@));
                }
                None
            },
            Line::Setting(key, value) => {
                let is_identity = str_eq(key.as_str(), "identityfile");
                if self.groups.len() > 0 {
                    let ghost prev = self.groups@;
                    let mut g = self.groups.pop().unwrap();
                    if is_identity {
                        let ghost before = g.identity_files@;
                        g.identity_files.push(IdentityFileEntry::new(value.clone()));
                        assert(entry_paths(g.identity_files@) =~= entry_paths(before).push(value@));
                    }
                    add_option_exec(&mut g.options, key, value.as_str());
                    self.groups.push(g);
                    proof {
                        assert(group_views(self.groups@) =~= group_views(prev).update(
                            prev.len() - 1,
                            g@,
                        ));
                    }
                } else {
                    if is_identity {
                        let ghost before = self.identity_files@;
                        self.identity_files.push(IdentityFileEntry::new(value.clone()));
                        assert(entry_paths(self.identity_files@) =~= entry_paths(before).push(
                            value@,
                        ));
                    }
                    add_option_exec(&mut self.options, key, value.as_str());
                }
                None
            },
        }
    }

    /// Reads every line of `s` into this file (an `Include` line changes
    /// nothing here).
    pub fn parse_text(&mut self, s: &str)
        ensures
            final(self)@ == apply_lines(old(self)@, lines(s@)),
    {
        let cs = chars_of(s);
        let ls = lines_exec(&cs);
        let ghost lv = ls@.map_values(|w: Vec<char>| w@);
        let ghost start = self@;
        let mut i: usize = 0;
        assert(lv.take(0) =~= seq![]);
        while i < ls.len()
            invariant
                i <= ls.len(),
                lv == ls@.map_values(|w: Vec<char>| w@),
                lv == lines(s@),
                self@ == apply_lines(start, lv.take(i as int)),
            decreases ls.len() - i,
        {
            let line = string_of(&ls[i]);
            proof {
                assert(lv[i as int] == ls@[i as int]@);
                assert(lv.take(i + 1).drop_last() == lv.take(i as int));
            }
            let _ = self.parse_line(line.as_str());
            i = i + 1;
        }
        assert(lv.take(i as int) == lv);
    }

    /// The file that the text `s` makes, read from `source_file` if that
    /// is named (an `Include` line changes nothing here).
    pub fn parse(s: &str, source_file: Option<String>) -> (r: Self)
        ensures
            r@ == apply_lines(ParsedConfigFile::new_view(source_file), lines(s@)),
    {
        let mut f = ParsedConfigFile::new(source_file);
        f.parse_text(s);
        f
    }

    /// The view of `new(source_file)`.
    pub open spec fn new_view(source_file: Option<String>) -> FileView {
        FileView {
            options: Map::empty(),
            groups: seq![],
            loaded_files: match source_file {
                Some(s) => seq![s@],
                None => seq![],
            },
            identity_files: seq![],
        }
    }
}


/// The gathered `identityfile` option agrees with the list of identity
/// files: absent while the list is empty, else the list joined by spaces.
pub open spec fn identity_agrees(m: Map<Seq<char>, Seq<char>>, l: Seq<Seq<char>>) -> bool {
    if l.len() == 0 {
        !m.contains_key("identityfile"@)
    } else {
        m.contains_key("identityfile"@) && m["identityfile"@] == join(l, seq![' '])
    }
}

/// The options and identity list of the file, and of each of its
/// stanzas, agree.
pub open spec fn identities_agree(f: FileView) -> bool {
    &&& identity_agrees(f.options, f.identity_files)
    &&& forall|i: int|
        0 <= i < f.groups.len() ==> identity_agrees(
            #[trigger] f.groups[i].options,
            f.groups[i].identity_files,
        )
}

proof fn lemma_add_option_agrees(m: Map<Seq<char>, Seq<char>>, l: Seq<Seq<char>>, k: Seq<char>, v: Seq<char>)
    requires
        identity_agrees(m, l),
    ensures
        identity_agrees(
            add_option(m, k, v),
            if k == "identityfile"@ {
                l.push(v)
            } else {
                l
            },
        ),
{
    if k == "identityfile"@ {
        assert(l.push(v).drop_last() == l);
        if l.len() == 0 {
            assert(join(l.push(v), seq![' ']) == v);
        }
    }
}

proof fn lemma_line_agrees(f: FileView, line: Seq<char>)
    requires
        identities_agree(f),
    ensures
        identities_agree(apply_line(f, line)),
{
    let g = apply_line(f, line);
    match classify_line(line) {
        LineKind::Host(ts) => {
            assert forall|i: int| 0 <= i < g.groups.len() implies identity_agrees(
                #[trigger] g.groups[i].options,
                g.groups[i].identity_files,
            ) by {
                if i < f.groups.len() {
                    assert(g.groups[i] == f.groups[i]);
                }
            }
        },
        LineKind::Match(ts) => {
            assert forall|i: int| 0 <= i < g.groups.len() implies identity_agrees(
                #[trigger] g.groups[i].options,
                g.groups[i].identity_files,
            ) by {
                if i < f.groups.len() {
                    assert(g.groups[i] == f.groups[i]);
                }
            }
        },
        LineKind::Setting(k, v) => {
            if f.groups.len() > 0 {
                let last = f.groups.last();
                assert(identity_agrees(last.options, last.identity_files));
                lemma_add_option_agrees(last.options, last.identity_files, k, v);
                assert forall|i: int| 0 <= i < g.groups.len() implies identity_agrees(
                    #[trigger] g.groups[i].options,
                    g.groups[i].identity_files,
                ) by {
                    if i < f.groups.len() - 1 {
                        assert(g.groups[i] == f.groups[i]);
                    }
                }
            } else {
                lemma_add_option_agrees(f.options, f.identity_files, k, v);
            }
        },
        _ => {},
    }
}

/// Reading lines keeps each identity list and the gathered
/// `identityfile` option in agreement, in the file and in every stanza:
/// the typed list and the flat entry never drift apart.
pub proof fn law_identity_list_matches_option(f: FileView, ls: Seq<Seq<char>>)
    requires
        identities_agree(f),
    ensures
        identities_agree(apply_lines(f, ls)),
    decreases ls.len(),
{
    if ls.len() > 0 {
        law_identity_list_matches_option(f, ls.drop_last());
        lemma_line_agrees(apply_lines(f, ls.drop_last()), ls.last());
    }
}

/// A new file's identity list and options agree.
pub proof fn law_new_file_identities_agree(source_file: Option<String>)
    ensures
        identities_agree(ParsedConfigFile::new_view(source_file)),
{
}

} // verus!
