//! Shell-style tokenizer following OpenSSH's `argv_split` rules.
//!
//! - Tokens are separated by space or tab outside of quotes.
//! - `"..."` and `'...'` are both quoting forms; quotes are removed and
//!   their content is taken literally.
//! - Backslash escapes: `\\`, `\"` and `\'` work inside and outside
//!   quotes; `\ ` only outside quotes. Any other backslash is kept.
//! - With `terminate_on_comment`, an unquoted `#` at the start of a
//!   token ends the input.
//! - An unterminated quote is an error.
use vstd::prelude::*;
use crate::text::{chars_of, join, lemma_join_front, push_char, views};

verus! {

/// Why a value could not be split into tokens.
#[derive(Debug, Clone, Copy, PartialEq, Eq, Structural)]
pub enum TokenizeError {
    UnbalancedQuote,
}

impl TokenizeError {
    /// The error's message.
    pub fn message(&self) -> (r: String)
        ensures
            r@ == "unbalanced quotes in value"@,
    {
        String::from_str("unbalanced quotes in value")
    }
}

/// A separator between tokens.
pub open spec fn is_sep(c: char) -> bool {
    c == ' ' || c == '\t'
}

/// A character that a backslash escapes at this point.
pub open spec fn escapable(c: char, quoted: bool) -> bool {
    c == '\'' || c == '"' || c == '\\' || (c == ' ' && !quoted)
}

/// `pre` put in front of the tokens of a successful split.
pub open spec fn prepend_all(
    pre: Seq<Seq<char>>,
    r: Result<Seq<Seq<char>>, TokenizeError>,
) -> Result<Seq<Seq<char>>, TokenizeError> {
    match r {
        Ok(ts) => Ok(pre + ts),
        Err(e) => Err(e),
    }
}

/// The tokens of `s` when no token is being read.
pub open spec fn split_between(s: Seq<char>, toc: bool) -> Result<Seq<Seq<char>>, TokenizeError>
    decreases s.len(), 1nat,
{
    if s.len() == 0 {
        Ok(seq![])
    } else if is_sep(s[0]) {
        split_between(s.drop_first(), toc)
    } else if toc && s[0] == '#' {
        Ok(seq![])
    } else {
        split_in_token(s, toc, None, seq![])
    }
}

/// The tokens of `s` while a token is being read: `buf` holds what it
/// has so far, `quote` the quote that is open, if any.
pub open spec fn split_in_token(
    s: Seq<char>,
    toc: bool,
    quote: Option<char>,
    buf: Seq<char>,
) -> Result<Seq<Seq<char>>, TokenizeError>
    decreases s.len(), 0nat,
{
    if s.len() == 0 {
        if quote is None {
            Ok(seq![buf])
        } else {
            Err(TokenizeError::UnbalancedQuote)
        }
    } else if s[0] == '\\' {
        if s.len() > 1 && escapable(s[1], quote is Some) {
            split_in_token(s.skip(2), toc, quote, buf.push(s[1]))
        } else {
            split_in_token(s.drop_first(), toc, quote, buf.push('\\'))
        }
    } else if quote is None && is_sep(s[0]) {
        prepend_all(seq![buf], split_between(s.drop_first(), toc))
    } else if quote is None && (s[0] == '"' || s[0] == '\'') {
        split_in_token(s.drop_first(), toc, Some(s[0]), buf)
    } else if quote == Some(s[0]) {
        split_in_token(s.drop_first(), toc, None, buf)
    } else {
        split_in_token(s.drop_first(), toc, quote, buf.push(s[0]))
    }
}

/// The result of splitting `s` by OpenSSH's `argv_split` rules.
pub open spec fn argv_split_spec(s: Seq<char>, toc: bool) -> Result<Seq<Seq<char>>, TokenizeError> {
    split_between(s, toc)
}

proof fn lemma_prepend_twice(a: Seq<Seq<char>>, b: Seq<char>, r: Result<Seq<Seq<char>>, TokenizeError>)
    ensures
        prepend_all(a, prepend_all(seq![b], r)) == prepend_all(a.push(b), r),
{
    match r {
        Ok(ts) => {
            assert(a + (seq![b] + ts) == a.push(b) + ts);
        },
        Err(_) => {},
    }
}

/// Split `s` into tokens using OpenSSH's `argv_split` rules.
///
/// When `terminate_on_comment` is `true`, an unquoted `#` that starts a
/// token ends the input. Returns `UnbalancedQuote` if a quoted section
/// is never closed.
pub fn argv_split(s: &str, terminate_on_comment: bool) -> (r: Result<Vec<String>, TokenizeError>)
    ensures
        match r {
            Ok(v) => argv_split_spec(s@, terminate_on_comment) == Ok::<Seq<Seq<char>>, TokenizeError>(views(v@)),
            Err(e) => argv_split_spec(s@, terminate_on_comment) == Err::<Seq<Seq<char>>, TokenizeError>(e),
        },
{
    let cs = chars_of(s);
    let n = cs.len();
    let toc = terminate_on_comment;
    let ghost whole = argv_split_spec(s@, toc);
    let mut out: Vec<String> = Vec::new();
    let mut i: usize = 0;
    assert(cs@.skip(0) == cs@);
    assert(views(out@) =~= seq![]);
    assert(prepend_all(seq![], whole) == whole);
    while i < n
        invariant
            n == cs.len(),
            cs@ == s@,
            toc == terminate_on_comment,
            whole == argv_split_spec(s@, toc),
            i <= n,
            prepend_all(views(out@), split_between(cs@.skip(i as int), toc)) == whole,
        decreases n - i,
    {
        let c = cs[i];
        proof {
            assert(cs@.skip(i as int)[0] == c);
            assert(cs@.skip(i as int).drop_first() == cs@.skip(i + 1));
        }
        if c == ' ' || c == '\t' {
            i = i + 1;
            continue;
        }
        if toc && c == '#' {
            assert(views(out@) + seq![] == views(out@));
            return Ok(out);
        }
        let mut buf = String::new();
        let mut quote: Option<char> = None;
        let mut done = false;
        let i0 = i;
        assert(buf@ =~= seq![]);
        while i < n && !done
            invariant
                n == cs.len(),
                i0 <= i <= n,
                done ==> (i < n && quote is None && is_sep(cs@[i as int])),
                prepend_all(views(out@), split_in_token(cs@.skip(i as int), toc, quote, buf@)) == whole,
            decreases (n - i) as int + (if done { 0int } else { 1int }),
        {
            let c = cs[i];
            let ghost rest = cs@.skip(i as int);
            proof {
                assert(rest[0] == c);
                assert(rest.drop_first() == cs@.skip(i + 1));
            }
            if c == '\\' {
                let recognised: Option<char> = if i + 1 < n {
                    let nx = cs[i + 1];
                    if nx == '\'' || nx == '"' || nx == '\\' {
                        Some(nx)
                    } else if nx == ' ' && quote.is_none() {
                        Some(' ')
                    } else {
                        None
                    }
                } else {
                    None
                };
                proof {
                    if i + 1 < n {
                        assert(rest[1] == cs@[i + 1]);
                        assert(rest.skip(2) == cs@.skip(i + 2));
                    }
                }
                match recognised {
                    Some(b) => {
                        push_char(&mut buf, b);
                        i = i + 2;
                    },
                    None => {
                        push_char(&mut buf, '\\');
                        i = i + 1;
                    },
                }
            } else if quote.is_none() && (c == ' ' || c == '\t') {
                done = true;
            } else if quote.is_none() && (c == '"' || c == '\'') {
                quote = Some(c);
                i = i + 1;
            } else if quote == Some(c) {
                quote = None;
                i = i + 1;
            } else {
                push_char(&mut buf, c);
                i = i + 1;
            }
        }
        if !done && quote.is_some() {
            assert(cs@.skip(i as int).len() == 0);
            return Err(TokenizeError::UnbalancedQuote);
        }
        let ghost before = views(out@);
        let ghost b = buf@;
        proof {
            if done {
                let rest = cs@.skip(i as int);
                assert(rest[0] == cs@[i as int]);
                assert(rest.drop_first() == cs@.skip(i + 1));
                lemma_prepend_twice(before, b, split_between(rest.drop_first(), toc));
            } else {
                assert(cs@.skip(i as int).len() == 0);
                lemma_prepend_twice(before, b, Ok::<Seq<Seq<char>>, TokenizeError>(seq![]));
                assert(seq![b] + seq![] == seq![b]);
            }
        }
        out.push(buf);
        assert(views(out@) == before.push(b));
        if done {
            i = i + 1;
        }
    }
    assert(cs@.skip(i as int).len() == 0);
    assert(views(out@) + seq![] == views(out@));
    Ok(out)
}

// ---------------------------------------------------------------------
// Laws
// ---------------------------------------------------------------------
/// Separators in front of a value change nothing.
pub proof fn law_leading_separators_ignored(p: Seq<char>, s: Seq<char>, toc: bool)
    requires
        forall|i: int| 0 <= i < p.len() ==> #[trigger] is_sep(p[i]),
    ensures
        argv_split_spec(p + s, toc) == argv_split_spec(s, toc),
    decreases p.len(),
{
    if p.len() > 0 {
        assert((p + s)[0] == p[0]);
        assert((p + s).drop_first() =~= p.drop_first() + s);
        assert forall|i: int| 0 <= i < p.drop_first().len() implies #[trigger] is_sep(
            p.drop_first()[i],
        ) by {
            assert(p.drop_first()[i] == p[i + 1]);
        }
        law_leading_separators_ignored(p.drop_first(), s, toc);
    } else {
        assert(p + s =~= s);
    }
}

/// No character of `s` is a quote.
pub open spec fn no_quotes(s: Seq<char>) -> bool {
    forall|i: int| 0 <= i < s.len() ==> #[trigger] s[i] != '"' && s[i] != '\''
}

proof fn lemma_no_quotes_ok(s: Seq<char>, toc: bool, buf: Seq<char>)
    requires
        no_quotes(s),
    ensures
        split_between(s, toc) is Ok,
        split_in_token(s, toc, None, buf) is Ok,
    decreases s.len(),
{
    if s.len() > 0 {
        assert(s[0] != '"' && s[0] != '\'');
        assert(no_quotes(s.drop_first())) by {
            assert forall|i: int| 0 <= i < s.drop_first().len() implies #[trigger] s.drop_first()[i]
                != '"' && s.drop_first()[i] != '\'' by {
                assert(s.drop_first()[i] == s[i + 1]);
            }
        }
        lemma_no_quotes_ok(s.drop_first(), toc, seq![]);
        lemma_no_quotes_ok(s.drop_first(), toc, buf.push(s[0]));
        lemma_no_quotes_ok(s.drop_first(), toc, buf.push('\\'));
        lemma_no_quotes_ok(s.drop_first(), toc, seq![s[0]]);
        lemma_no_quotes_ok(s.drop_first(), toc, seq!['\\']);
        if s.len() > 1 {
            assert(no_quotes(s.skip(2))) by {
                assert forall|i: int| 0 <= i < s.skip(2).len() implies #[trigger] s.skip(2)[i]
                    != '"' && s.skip(2)[i] != '\'' by {
                    assert(s.skip(2)[i] == s[i + 2]);
                }
            }
            lemma_no_quotes_ok(s.skip(2), toc, buf.push(s[1]));
            lemma_no_quotes_ok(s.skip(2), toc, seq![s[1]]);
        }
        assert(Seq::<char>::empty().push(s[0]) =~= seq![s[0]]);
        assert(Seq::<char>::empty().push('\\') =~= seq!['\\']);
        if s.len() > 1 {
            assert(Seq::<char>::empty().push(s[1]) =~= seq![s[1]]);
        }
        if !is_sep(s[0]) && !(toc && s[0] == '#') {
            assert(split_between(s, toc) == split_in_token(s, toc, None, seq![]));
        }
    }
}

/// The only error is an unbalanced quote: a value without quotes always
/// splits.
pub proof fn law_no_quotes_never_fails(s: Seq<char>, toc: bool)
    requires
        no_quotes(s),
    ensures
        argv_split_spec(s, toc) is Ok,
{
    lemma_no_quotes_ok(s, toc, seq![]);
}

/// A value with no quote, backslash or `#`.
pub open spec fn plain_text(s: Seq<char>) -> bool {
    forall|i: int|
        0 <= i < s.len() ==> {
            &&& #[trigger] s[i] != '"'
            &&& s[i] != '\''
            &&& s[i] != '\\'
            &&& s[i] != '#'
        }
}

/// The maximal runs of characters other than space and tab of `s`, in
/// order, with `cur` already read into the first of them.
pub open spec fn fields_from(s: Seq<char>, cur: Seq<char>) -> Seq<Seq<char>>
    decreases s.len(),
{
    if s.len() == 0 {
        if cur.len() > 0 {
            seq![cur]
        } else {
            seq![]
        }
    } else if is_sep(s[0]) {
        (if cur.len() > 0 {
            seq![cur]
        } else {
            seq![]
        }) + fields_from(s.drop_first(), seq![])
    } else {
        fields_from(s.drop_first(), cur.push(s[0]))
    }
}

/// The pieces of `s` between spaces and tabs, empty pieces left out.
pub open spec fn fields(s: Seq<char>) -> Seq<Seq<char>> {
    fields_from(s, seq![])
}

proof fn lemma_plain_tokens(s: Seq<char>, toc: bool, buf: Seq<char>)
    requires
        plain_text(s),
    ensures
        split_between(s, toc) == Ok::<Seq<Seq<char>>, TokenizeError>(fields_from(s, seq![])),
        buf.len() > 0 ==> split_in_token(s, toc, None, buf) == Ok::<Seq<Seq<char>>, TokenizeError>(
            fields_from(s, buf),
        ),
    decreases s.len(),
{
    if s.len() > 0 {
        let t = s.drop_first();
        assert(plain_text(t)) by {
            assert forall|i: int| 0 <= i < t.len() implies {
                &&& #[trigger] t[i] != '"'
                &&& t[i] != '\''
                &&& t[i] != '\\'
                &&& t[i] != '#'
            } by {
                assert(t[i] == s[i + 1]);
            }
        }
        assert(s[0] != '"' && s[0] != '\'' && s[0] != '\\' && s[0] != '#');
        lemma_plain_tokens(t, toc, seq![]);
        lemma_plain_tokens(t, toc, buf.push(s[0]));
        lemma_plain_tokens(t, toc, seq![s[0]]);
        assert(Seq::<char>::empty().push(s[0]) =~= seq![s[0]]);
        if !is_sep(s[0]) {
            assert(split_between(s, toc) == split_in_token(s, toc, None, seq![]));
            assert(split_in_token(s, toc, None, seq![]) == split_in_token(t, toc, None, seq![s[0]]));
        }
        if buf.len() > 0 && is_sep(s[0]) {
            assert(split_in_token(s, toc, None, buf) == prepend_all(seq![buf], split_between(t, toc)));
            assert(fields_from(s, buf) == seq![buf] + fields_from(t, seq![]));
        }
    }
}

/// A value with no quote, backslash or `#` splits into its pieces
/// between spaces and tabs, empty pieces left out; any other white space
/// stays inside a token.
pub proof fn law_plain_words(s: Seq<char>, toc: bool)
    requires
        plain_text(s),
    ensures
        argv_split_spec(s, toc) == Ok::<Seq<Seq<char>>, TokenizeError>(fields(s)),
{
    lemma_plain_tokens(s, toc, seq![]);
}

/// A token in double quotes.
pub open spec fn double_quoted(t: Seq<char>) -> Seq<char> {
    seq!['"'] + t + seq!['"']
}

/// A token with neither a double quote nor a backslash in it.
pub open spec fn plain_token(t: Seq<char>) -> bool {
    forall|i: int| 0 <= i < t.len() ==> #[trigger] t[i] != '"' && t[i] != '\\'
}

proof fn lemma_in_quotes(t: Seq<char>, rest: Seq<char>, toc: bool, buf: Seq<char>)
    requires
        plain_token(t),
    ensures
        split_in_token(t + seq!['"'] + rest, toc, Some('"'), buf) == split_in_token(rest, toc, None, buf + t),
    decreases t.len(),
{
    let s = t + seq!['"'] + rest;
    if t.len() == 0 {
        assert(s.drop_first() =~= rest);
        assert(buf + t =~= buf);
    } else {
        assert(s[0] == t[0]);
        assert(t[0] != '"' && t[0] != '\\');
        assert(s.drop_first() =~= t.drop_first() + seq!['"'] + rest);
        lemma_in_quotes(t.drop_first(), rest, toc, buf.push(t[0]));
        assert(buf.push(t[0]) + t.drop_first() =~= buf + t);
    }
}

proof fn lemma_quoted_token(t: Seq<char>, rest: Seq<char>, toc: bool)
    requires
        plain_token(t),
    ensures
        split_between(double_quoted(t) + rest, toc) == split_in_token(rest, toc, None, t),
{
    let s = double_quoted(t) + rest;
    assert(s[0] == '"');
    assert(!is_sep(s[0]));
    assert(split_between(s, toc) == split_in_token(s, toc, None, seq![]));
    assert(split_in_token(s, toc, None, seq![]) == split_in_token(s.drop_first(), toc, Some('"'), seq![]));
    assert(s.drop_first() =~= t + seq!['"'] + rest);
    lemma_in_quotes(t, rest, toc, seq![]);
    assert(seq![] + t =~= t);
}

/// Putting each token in double quotes and joining them with spaces is
/// undone by the split exactly, whatever the tokens hold besides double
/// quotes and backslashes (spaces, tabs, single quotes, `#`, nothing).
pub proof fn law_quoted_tokens_round_trip(toks: Seq<Seq<char>>, toc: bool)
    requires
        forall|i: int| 0 <= i < toks.len() ==> plain_token(#[trigger] toks[i]),
    ensures
        argv_split_spec(join(toks.map_values(|t: Seq<char>| double_quoted(t)), seq![' ']), toc) == Ok::<
            Seq<Seq<char>>,
            TokenizeError,
        >(toks),
    decreases toks.len(),
{
    let qs = toks.map_values(|t: Seq<char>| double_quoted(t));
    if toks.len() == 0 {
        assert(toks =~= seq![]);
    } else if toks.len() == 1 {
        assert(plain_token(toks[0]));
        lemma_quoted_token(toks[0], seq![], toc);
        assert(double_quoted(toks[0]) + seq![] =~= double_quoted(toks[0]));
        assert(toks =~= seq![toks[0]]);
    } else {
        let tail = toks.drop_first();
        lemma_join_front(qs, seq![' ']);
        assert(qs.drop_first() =~= tail.map_values(|t: Seq<char>| double_quoted(t)));
        assert forall|i: int| 0 <= i < tail.len() implies plain_token(#[trigger] tail[i]) by {
            assert(tail[i] == toks[i + 1]);
        }
        law_quoted_tokens_round_trip(tail, toc);
        let j = join(qs.drop_first(), seq![' ']);
        assert(plain_token(toks[0]));
        lemma_quoted_token(toks[0], seq![' '] + j, toc);
        assert(qs[0] + seq![' '] + j =~= double_quoted(toks[0]) + (seq![' '] + j));
        let r = seq![' '] + j;
        assert(r[0] == ' ');
        assert(r.drop_first() =~= j);
        assert(seq![toks[0]] + tail =~= toks);
    }
}


/// A piece of a token with no quote, backslash, `#`, space or tab.
pub open spec fn bare_piece(t: Seq<char>) -> bool {
    forall|i: int|
        0 <= i < t.len() ==> {
            &&& #[trigger] t[i] != '"'
            &&& t[i] != '\''
            &&& t[i] != '\\'
            &&& t[i] != '#'
            &&& t[i] != ' '
            &&& t[i] != '\t'
        }
}

proof fn lemma_bare_piece(t: Seq<char>, rest: Seq<char>, toc: bool, buf: Seq<char>)
    requires
        bare_piece(t),
    ensures
        split_in_token(t + rest, toc, None, buf) == split_in_token(rest, toc, None, buf + t),
    decreases t.len(),
{
    if t.len() == 0 {
        assert(t + rest =~= rest);
        assert(buf + t =~= buf);
    } else {
        let s = t + rest;
        assert(s[0] == t[0]);
        assert(s.drop_first() =~= t.drop_first() + rest);
        assert(bare_piece(t.drop_first())) by {
            assert forall|i: int| 0 <= i < t.drop_first().len() implies {
                &&& #[trigger] t.drop_first()[i] != '"'
                &&& t.drop_first()[i] != '\''
                &&& t.drop_first()[i] != '\\'
                &&& t.drop_first()[i] != '#'
                &&& t.drop_first()[i] != ' '
                &&& t.drop_first()[i] != '\t'
            } by {
                assert(t.drop_first()[i] == t[i + 1]);
            }
        }
        lemma_bare_piece(t.drop_first(), rest, toc, buf.push(t[0]));
        assert(buf.push(t[0]) + t.drop_first() =~= buf + t);
    }
}

/// Outside quotes, a backslash before a double or single quote gives that
/// quote as a character of the token and opens no quoted section: the
/// value `a\qb` (for pieces `a`, `b` without quotes, backslashes, `#`,
/// spaces or tabs) is the one token `a`, the quote, `b`.
pub proof fn law_escaped_quote_is_literal(a: Seq<char>, q: char, b: Seq<char>, toc: bool)
    requires
        q == '"' || q == '\'',
        bare_piece(a),
        bare_piece(b),
    ensures
        argv_split_spec(a + seq!['\\', q] + b, toc) == Ok::<Seq<Seq<char>>, TokenizeError>(
            seq![a.push(q) + b],
        ),
{
    let s = a + seq!['\\', q] + b;
    let e = seq!['\\', q] + b;
    assert(s =~= a + e);
    // Reading `a` (or nothing) puts it in the token being read.
    if a.len() > 0 {
        assert(s[0] == a[0]);
        assert(!is_sep(s[0]) && !(toc && s[0] == '#'));
        assert(split_between(s, toc) == split_in_token(s, toc, None, seq![]));
        lemma_bare_piece(a, e, toc, seq![]);
        assert(seq![] + a =~= a);
    } else {
        assert(s =~= e);
        assert(s[0] == '\\');
        assert(split_between(s, toc) == split_in_token(s, toc, None, seq![]));
        assert(a =~= seq![]);
    }
    // The escape: the quote is taken literally.
    assert(e[0] == '\\' && e[1] == q && escapable(q, false));
    assert(e.skip(2) =~= b);
    assert(split_in_token(e, toc, None, a) == split_in_token(b, toc, None, a.push(q)));
    lemma_bare_piece(b, seq![], toc, a.push(q));
    assert(b + seq![] =~= b);
}

} // verus!
