//! Host patterns of `Host` and `Match` stanzas, and the criteria that
//! decide whether a stanza applies.
use vstd::prelude::*;
use crate::config_map::ConfigMap;
use crate::text::{chars_of, push_char, string_of};

verus! {

// ---------------------------------------------------------------------
// The regex crate
// ---------------------------------------------------------------------
/// A character that `regex::escape` escapes.
pub open spec fn regex_meta(c: char) -> bool {
    c == '\\' || c == '.' || c == '+' || c == '*' || c == '?' || c == '(' || c == ')' || c == '|'
        || c == '[' || c == ']' || c == '{' || c == '}' || c == '^' || c == '$' || c == '#' || c
        == '&' || c == '-' || c == '~'
}

/// `s` with a backslash before each regex meta character.
pub open spec fn regex_escape_spec(s: Seq<char>) -> Seq<char>
    decreases s.len(),
{
    if s.len() == 0 {
        seq![]
    } else {
        (if regex_meta(s[0]) {
            seq!['\\', s[0]]
        } else {
            seq![s[0]]
        }) + regex_escape_spec(s.drop_first())
    }
}

/// Trusted: `regex::escape` (regex 1.13, through `regex_syntax::escape`)
/// pushes a backslash before every character for which
/// `regex_syntax::is_meta_character` holds, and copies every character.
#[verifier::external_body]
fn regex_escape(s: &str) -> (r: String)
    ensures
        r@ == regex_escape_spec(s@),
{
    regex::escape(s)
}

/// Whether `pattern`, compiled by the regex crate, matches somewhere in
/// `text` (false when it does not compile).
pub uninterp spec fn regex_finds(pattern: Seq<char>, text: Seq<char>) -> bool;

/// Whether a glob matches the whole of `text` as its anchored regex does:
/// `*` matches any run of characters other than a new line, `?` any one
/// character other than a new line, and every other character itself.
pub open spec fn glob_match(g: Seq<char>, t: Seq<char>) -> bool
    decreases g.len(), t.len(),
{
    if g.len() == 0 {
        t.len() == 0
    } else if g[0] == '*' {
        glob_match(g.drop_first(), t) || (t.len() > 0 && t[0] != '\n' && glob_match(g, t.drop_first()))
    } else if g[0] == '?' {
        t.len() > 0 && t[0] != '\n' && glob_match(g.drop_first(), t.drop_first())
    } else {
        t.len() > 0 && t[0] == g[0] && glob_match(g.drop_first(), t.drop_first())
    }
}

/// Trusted: compiles `pattern` with `regex::Regex::new` and asks
/// `Regex::is_match` about `text`; a pattern that does not compile gives
/// `false`. The answer depends on the two strings alone and is named
/// `regex_finds`. Of the anchored pattern that a glob of at most 256
/// characters compiles to (`^`, then `.*` for `*`, `.` for `?` and each
/// other character escaped by `regex::escape`, then `$`), the claim is
/// what the crate's syntax documentation gives: it compiles (far inside
/// the default size limit), `^` and `$` match at the two ends of the
/// text, `.` matches any character but a new line, `*` repeats, and an
/// escaped or ordinary character matches itself. Nothing is claimed of
/// other patterns.
#[verifier::external_body]
fn regex_is_match(pattern: &str, text: &str) -> (r: bool)
    ensures
        r == regex_finds(pattern@, text@),
        forall|g: Seq<char>|
            #[trigger] glob_regex(g) == pattern@ && g.len() <= 256 ==> r == glob_match(g, text@),
{
    match regex::Regex::new(pattern) {
        Ok(re) => re.is_match(text),
        Err(_) => false,
    }
}

// ---------------------------------------------------------------------
// Patterns
// ---------------------------------------------------------------------
/// The regex text for one character of a glob.
pub open spec fn glob_piece(c: char) -> Seq<char> {
    if c == '*' {
        seq!['.', '*']
    } else if c == '?' {
        seq!['.']
    } else {
        regex_escape_spec(seq![c])
    }
}

/// The regex text for the characters of a glob.
pub open spec fn glob_body(s: Seq<char>) -> Seq<char>
    decreases s.len(),
{
    if s.len() == 0 {
        seq![]
    } else {
        glob_piece(s[0]) + glob_body(s.drop_first())
    }
}

/// The anchored regex text that a glob compiles to.
pub open spec fn glob_regex(s: Seq<char>) -> Seq<char> {
    seq!['^'] + glob_body(s) + seq!['$']
}

/// A glob without `*` or `?`.
pub open spec fn glob_is_literal(s: Seq<char>) -> bool {
    forall|i: int| 0 <= i < s.len() ==> s[i] != '*' && s[i] != '?'
}

proof fn lemma_glob_body_push(s: Seq<char>, c: char)
    ensures
        glob_body(s.push(c)) == glob_body(s) + glob_piece(c),
    decreases s.len(),
{
    if s.len() == 0 {
        assert(s.push(c).drop_first() =~= seq![]);
        assert(glob_body(seq![]) == Seq::<char>::empty());
        assert(glob_body(s) == Seq::<char>::empty());
    } else {
        lemma_glob_body_push(s.drop_first(), c);
        assert(s.push(c).drop_first() =~= s.drop_first().push(c));
        assert(s.push(c)[0] == s[0]);
    }
}

/// One entry of a `Host` list.
#[derive(Debug, PartialEq, Eq, Clone)]
pub struct Pattern {
    pub negated: bool,
    pub pattern: String,
    pub original: String,
    pub is_literal: bool,
}

/// A pattern as values.
pub struct PatternView {
    pub negated: bool,
    pub pattern: Seq<char>,
    pub original: Seq<char>,
    pub is_literal: bool,
}

impl View for Pattern {
    type V = PatternView;

    open spec fn view(&self) -> PatternView {
        PatternView {
            negated: self.negated,
            pattern: self.pattern@,
            original: self.original@,
            is_literal: self.is_literal,
        }
    }
}

/// The pattern that `text` makes.
pub open spec fn pattern_of(text: Seq<char>, negated: bool) -> PatternView {
    PatternView {
        negated,
        pattern: glob_regex(text),
        original: text,
        is_literal: glob_is_literal(text),
    }
}

/// The views of a list of patterns.
pub open spec fn pattern_views(ps: Seq<Pattern>) -> Seq<PatternView> {
    ps.map_values(|p: Pattern| p@)
}

/// Whether one pattern matches a name.
pub open spec fn pattern_matches(p: PatternView, name: Seq<char>) -> bool {
    regex_finds(p.pattern, name)
}

/// The answer of a pattern list: the first pattern that matches decides
/// (a negated one says no), and a name no pattern matches is not
/// matched.
pub open spec fn group_matches_name(name: Seq<char>, ps: Seq<PatternView>) -> bool
    decreases ps.len(),
{
    if ps.len() == 0 {
        false
    } else if pattern_matches(ps[0], name) {
        !ps[0].negated
    } else {
        group_matches_name(name, ps.drop_first())
    }
}

/// Compile a glob string into regex text, and say whether it is a
/// literal name.
pub fn wildcard_to_pattern(s: &str) -> (r: (String, bool))
    ensures
        r.0@ == glob_regex(s@),
        r.1 == glob_is_literal(s@),
{
    let cs = chars_of(s);
    let mut pattern = String::new();
    let mut is_literal = true;
    push_char(&mut pattern, '^');
    let mut i: usize = 0;
    assert(cs@.take(0) =~= seq![]);
    while i < cs.len()
        invariant
            i <= cs.len(),
            cs@ == s@,
            pattern@ == seq!['^'] + glob_body(cs@.take(i as int)),
            is_literal == glob_is_literal(cs@.take(i as int)),
        decreases cs.len() - i,
    {
        let c = cs[i];
        proof {
            assert(cs@.take(i + 1) == cs@.take(i as int).push(c));
            lemma_glob_body_push(cs@.take(i as int), c);
        }
        if c == '*' {
            push_char(&mut pattern, '.');
            push_char(&mut pattern, '*');
            is_literal = false;
        } else if c == '?' {
            push_char(&mut pattern, '.');
            is_literal = false;
        } else {
            let mut one = String::new();
            push_char(&mut one, c);
            let esc = regex_escape(one.as_str());
            let ec = chars_of(esc.as_str());
            let mut j: usize = 0;
            let ghost base = pattern@;
            while j < ec.len()
                invariant
                    j <= ec.len(),
                    pattern@ == base + ec@.take(j as int),
                decreases ec.len() - j,
            {
                push_char(&mut pattern, ec[j]);
                j = j + 1;
                assert(pattern@ == base + ec@.take(j as int));
            }
            assert(ec@.take(j as int) == ec@);
            assert(one@ =~= seq![c]);
        }
        proof {
            assert(pattern@ =~= seq!['^'] + glob_body(cs@.take(i + 1)));
            assert(glob_is_literal(cs@.take(i + 1)) == (glob_is_literal(cs@.take(i as int)) && c
                != '*' && c != '?')) by {
                let t = cs@.take(i + 1);
                if glob_is_literal(t) {
                    assert(t[i as int] == c);
                }
                if glob_is_literal(cs@.take(i as int)) && c != '*' && c != '?' {
                    assert forall|k: int| 0 <= k < t.len() implies t[k] != '*' && t[k] != '?' by {
                        if k < i {
                            assert(t[k] == cs@.take(i as int)[k]);
                        }
                    }
                }
                if glob_is_literal(t) {
                    assert forall|k: int| 0 <= k < i implies cs@.take(i as int)[k] != '*'
                        && cs@.take(i as int)[k] != '?' by {
                        assert(t[k] == cs@.take(i as int)[k]);
                    }
                }
            }
        }
        i = i + 1;
    }
    push_char(&mut pattern, '$');
    assert(cs@.take(i as int) == s@);
    (pattern, is_literal)
}

impl Pattern {
    /// Returns true if this pattern matches the provided hostname
    pub fn match_text(&self, hostname: &str) -> (r: bool)
        ensures
            r == pattern_matches(self@, hostname@),
            self.pattern@ == glob_regex(self.original@) && self.original@.len() <= 256 ==> r == glob_match(
                self.original@,
                hostname@,
            ),
    {
        regex_is_match(self.pattern.as_str(), hostname)
    }

    /// The pattern for the glob `text`.
    pub fn new(text: &str, negated: bool) -> (r: Self)
        ensures
            r@ == pattern_of(text@, negated),
    {
        let (pattern, is_literal) = wildcard_to_pattern(text);
        Pattern { pattern, is_literal, negated, original: String::from_str(text) }
    }

    /// Returns true if hostname matches the condition specified by a list
    /// of patterns: the first pattern that matches decides.
    pub fn match_group(hostname: &str, patterns: &Vec<Pattern>) -> (r: bool)
        ensures
            r == group_matches_name(hostname@, pattern_views(patterns@)),
    {
        let ghost ps = pattern_views(patterns@);
        let mut i: usize = 0;
        assert(ps.skip(0) == ps);
        while i < patterns.len()
            invariant
                ps == pattern_views(patterns@),
                i <= patterns.len(),
                group_matches_name(hostname@, ps.skip(i as int)) == group_matches_name(
                    hostname@,
                    ps,
                ),
            decreases patterns.len() - i,
        {
            let pat = &patterns[i];
            proof {
                assert(ps.skip(i as int)[0] == pat@);
                assert(ps.skip(i as int).drop_first() == ps.skip(i + 1));
            }
            if pat.match_text(hostname) {
                return !pat.negated;
            }
            i = i + 1;
        }
        false
    }
}

// ---------------------------------------------------------------------
// Criteria and stanzas
// ---------------------------------------------------------------------
/// One condition of a `Host` or `Match` stanza.
#[derive(Debug, PartialEq, Eq, Clone)]
pub enum Criteria {
    Host(Vec<Pattern>),
    Exec(String),
    OriginalHost(Vec<Pattern>),
    User(Vec<Pattern>),
    LocalUser(Vec<Pattern>),
    All,
}

/// A criterion as values.
pub enum CriteriaView {
    Host(Seq<PatternView>),
    Exec(Seq<char>),
    OriginalHost(Seq<PatternView>),
    User(Seq<PatternView>),
    LocalUser(Seq<PatternView>),
    All,
}

impl View for Criteria {
    type V = CriteriaView;

    open spec fn view(&self) -> CriteriaView {
        match self {
            Criteria::Host(p) => CriteriaView::Host(pattern_views(p@)),
            Criteria::Exec(s) => CriteriaView::Exec(s@),
            Criteria::OriginalHost(p) => CriteriaView::OriginalHost(pattern_views(p@)),
            Criteria::User(p) => CriteriaView::User(pattern_views(p@)),
            Criteria::LocalUser(p) => CriteriaView::LocalUser(pattern_views(p@)),
            Criteria::All => CriteriaView::All,
        }
    }
}

/// The views of a list of criteria.
pub open spec fn criteria_views(cs: Seq<Criteria>) -> Seq<CriteriaView> {
    cs.map_values(|c: Criteria| c@)
}

/// The pass of the reading in which a stanza applies.
#[derive(Debug, Clone, Copy, PartialEq, Eq, Structural)]
pub enum Context {
    FirstPass,
    Canonical,
    Final,
}

/// Whether a criterion holds of a host, a user and a local user.
/// (`Exec` is not run; it does not stop a stanza from applying.)
pub open spec fn criterion_holds(
    c: CriteriaView,
    host: Seq<char>,
    user: Seq<char>,
    local_user: Seq<char>,
) -> bool {
    match c {
        CriteriaView::Host(p) => group_matches_name(host, p),
        CriteriaView::Exec(_) => true,
        CriteriaView::OriginalHost(p) => group_matches_name(host, p),
        CriteriaView::User(p) => group_matches_name(user, p),
        CriteriaView::LocalUser(p) => group_matches_name(local_user, p),
        CriteriaView::All => true,
    }
}

/// An `IdentityFile` value as declared: quotes and escapes removed, no
/// expansion made.
#[derive(Debug, Clone, PartialEq, Eq)]
pub struct IdentityFileEntry {
    /// The literal path as declared in the configuration.
    pub path: String,
}

impl IdentityFileEntry {
    /// An entry for `path`.
    pub fn new(path: String) -> (r: Self)
        ensures
            r.path == path,
    {
        IdentityFileEntry { path }
    }
}

/// The paths of a list of identity entries.
pub open spec fn entry_paths(es: Seq<IdentityFileEntry>) -> Seq<Seq<char>> {
    es.map_values(|e: IdentityFileEntry| e.path@)
}

/// A `Host` or `Match` stanza and the options it holds.
#[derive(Debug, PartialEq, Eq, Clone)]
pub struct MatchGroup {
    pub criteria: Vec<Criteria>,
    pub context: Context,
    pub options: ConfigMap,
    pub identity_files: Vec<IdentityFileEntry>,
}

/// A stanza as values.
pub struct GroupView {
    pub criteria: Seq<CriteriaView>,
    pub context: Context,
    pub options: Map<Seq<char>, Seq<char>>,
    pub identity_files: Seq<Seq<char>>,
}

impl View for MatchGroup {
    type V = GroupView;

    open spec fn view(&self) -> GroupView {
        GroupView {
            criteria: criteria_views(self.criteria@),
            context: self.context,
            options: self.options@,
            identity_files: entry_paths(self.identity_files@),
        }
    }
}

/// Whether a stanza applies to a host, user and local user in a pass:
/// its pass is that one and every criterion holds.
pub open spec fn group_applies(
    g: GroupView,
    host: Seq<char>,
    user: Seq<char>,
    local_user: Seq<char>,
    context: Context,
) -> bool {
    g.context == context && forall|i: int|
        0 <= i < g.criteria.len() ==> #[trigger] criterion_holds(
            g.criteria[i],
            host,
            user,
            local_user,
        )
}

impl MatchGroup {
    /// Whether this stanza applies.
    pub fn is_match(&self, hostname: &str, user: &str, local_user: &str, context: Context) -> (r:
        bool)
        ensures
            r == group_applies(self@, hostname@, user@, local_user@, context),
    {
        if self.context != context {
            return false;
        }
        let mut i: usize = 0;
        while i < self.criteria.len()
            invariant
                self.context == context,
                i <= self.criteria.len(),
                forall|j: int|
                    0 <= j < i ==> #[trigger] criterion_holds(
                        criteria_views(self.criteria@)[j],
                        hostname@,
                        user@,
                        local_user@,
                    ),
            decreases self.criteria.len() - i,
        {
            let ok = match &self.criteria[i] {
                Criteria::Host(patterns) => Pattern::match_group(hostname, patterns),
                Criteria::Exec(_) => true,
                Criteria::OriginalHost(patterns) => Pattern::match_group(hostname, patterns),
                Criteria::User(patterns) => Pattern::match_group(user, patterns),
                Criteria::LocalUser(patterns) => Pattern::match_group(local_user, patterns),
                Criteria::All => true,
            };
            assert(criteria_views(self.criteria@)[i as int] == self.criteria@[i as int]@);
            assert(ok == criterion_holds(
                criteria_views(self.criteria@)[i as int],
                hostname@,
                user@,
                local_user@,
            ));
            if !ok {
                assert(!criterion_holds(self@.criteria[i as int], hostname@, user@, local_user@));
                return false;
            }
            i = i + 1;
        }
        true
    }
}

/// Pattern `i` is the first of the list that matches the name.
pub open spec fn first_match_at(name: Seq<char>, ps: Seq<PatternView>, i: int) -> bool {
    &&& 0 <= i < ps.len()
    &&& pattern_matches(ps[i], name)
    &&& forall|j: int| 0 <= j < i ==> !#[trigger] pattern_matches(ps[j], name)
}

/// The first pattern that matches decides: a list matches a name exactly
/// when the first pattern that matches it is not negated; a name that no
/// pattern matches is not matched.
pub proof fn law_first_match_decides(name: Seq<char>, ps: Seq<PatternView>)
    ensures
        group_matches_name(name, ps) <==> exists|i: int|
            #[trigger] first_match_at(name, ps, i) && !ps[i].negated,
    decreases ps.len(),
{
    if ps.len() > 0 {
        let t = ps.drop_first();
        law_first_match_decides(name, t);
        if pattern_matches(ps[0], name) {
            if group_matches_name(name, ps) {
                assert(first_match_at(name, ps, 0));
            }
            if exists|i: int| #[trigger] first_match_at(name, ps, i) && !ps[i].negated {
                let i = choose|i: int| #[trigger] first_match_at(name, ps, i) && !ps[i].negated;
                if i > 0 {
                    assert(!pattern_matches(ps[0], name));
                }
            }
        } else {
            if exists|i: int| #[trigger] first_match_at(name, t, i) && !t[i].negated {
                let i = choose|i: int| #[trigger] first_match_at(name, t, i) && !t[i].negated;
                assert forall|j: int| 0 <= j < i + 1 implies !#[trigger] pattern_matches(ps[j], name) by {
                    if j > 0 {
                        assert(ps[j] == t[j - 1]);
                    }
                }
                assert(first_match_at(name, ps, i + 1));
            }
            if exists|i: int| #[trigger] first_match_at(name, ps, i) && !ps[i].negated {
                let i = choose|i: int| #[trigger] first_match_at(name, ps, i) && !ps[i].negated;
                assert(i > 0);
                assert forall|j: int| 0 <= j < i - 1 implies !#[trigger] pattern_matches(t[j], name) by {
                    assert(t[j] == ps[j + 1]);
                }
                assert(first_match_at(name, t, i - 1));
            }
        }
    }
}

} // verus!
