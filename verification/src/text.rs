//! Character-level text primitives shared by the tokenizer and the
//! ssh_config reader: their meaning is stated over `Seq<char>`.
use vstd::prelude::*;

verus! {

// ---------------------------------------------------------------------
// Specifications
// ---------------------------------------------------------------------
/// Unicode `White_Space`, as `char::is_whitespace` documents it.
pub open spec fn is_ws(c: char) -> bool {
    let u = c as u32;
    (0x09 <= u <= 0x0d) || u == 0x20 || u == 0x85 || u == 0xa0 || u == 0x1680 || (0x2000 <= u
        <= 0x200a) || u == 0x2028 || u == 0x2029 || u == 0x202f || u == 0x205f || u == 0x3000
}

/// `s` with its leading white space removed.
pub open spec fn trim_start(s: Seq<char>) -> Seq<char>
    decreases s.len(),
{
    if s.len() > 0 && is_ws(s[0]) {
        trim_start(s.drop_first())
    } else {
        s
    }
}

/// `s` with its trailing white space removed.
pub open spec fn trim_end(s: Seq<char>) -> Seq<char>
    decreases s.len(),
{
    if s.len() > 0 && is_ws(s.last()) {
        trim_end(s.drop_last())
    } else {
        s
    }
}

/// `s` with white space removed at both ends.
pub open spec fn trim(s: Seq<char>) -> Seq<char> {
    trim_end(trim_start(s))
}

/// `p` is a prefix of `s`.
pub open spec fn starts_with(s: Seq<char>, p: Seq<char>) -> bool {
    p.len() <= s.len() && s.take(p.len() as int) == p
}

/// `p` is a suffix of `s`.
pub open spec fn ends_with(s: Seq<char>, p: Seq<char>) -> bool {
    p.len() <= s.len() && s.skip(s.len() - p.len()) == p
}

/// `p` occurs in `s` at position `i`.
pub open spec fn occurs_at(s: Seq<char>, p: Seq<char>, i: int) -> bool {
    0 <= i && i + p.len() <= s.len() && s.subrange(i, i + p.len()) == p
}

/// `p` occurs somewhere in `s`.
pub open spec fn contains(s: Seq<char>, p: Seq<char>) -> bool {
    exists|i: int| occurs_at(s, p, i)
}

/// Every non-overlapping occurrence of `p` in `s`, taken from the left,
/// replaced by `r` (what `str::replace` does for a non-empty `p`).
pub open spec fn replace(s: Seq<char>, p: Seq<char>, r: Seq<char>) -> Seq<char>
    decreases s.len(),
{
    if p.len() == 0 || s.len() < p.len() {
        s
    } else if s.take(p.len() as int) == p {
        r + replace(s.skip(p.len() as int), p, r)
    } else {
        seq![s[0]] + replace(s.drop_first(), p, r)
    }
}

/// The maximal runs of non-white-space characters of `s`, in order,
/// with `cur` already read into the first of them.
pub open spec fn words_from(s: Seq<char>, cur: Seq<char>) -> Seq<Seq<char>>
    decreases s.len(),
{
    if s.len() == 0 {
        if cur.len() > 0 {
            seq![cur]
        } else {
            seq![]
        }
    } else if is_ws(s[0]) {
        (if cur.len() > 0 {
            seq![cur]
        } else {
            seq![]
        }) + words_from(s.drop_first(), seq![])
    } else {
        words_from(s.drop_first(), cur.push(s[0]))
    }
}

/// What `str::split_whitespace` yields.
pub open spec fn words(s: Seq<char>) -> Seq<Seq<char>> {
    words_from(s, seq![])
}

/// The pieces of `s` between occurrences of `c`, with `cur` already
/// read into the first of them.
pub open spec fn split_from(s: Seq<char>, c: char, cur: Seq<char>) -> Seq<Seq<char>>
    decreases s.len(),
{
    if s.len() == 0 {
        seq![cur]
    } else if s[0] == c {
        seq![cur] + split_from(s.drop_first(), c, seq![])
    } else {
        split_from(s.drop_first(), c, cur.push(s[0]))
    }
}

/// What `str::split(c)` yields: one piece more than `s` holds `c`s.
pub open spec fn split_on(s: Seq<char>, c: char) -> Seq<Seq<char>> {
    split_from(s, c, seq![])
}

/// A line as `str::lines` hands it out once its `\n` is removed: one
/// carriage return before the newline goes too.
pub open spec fn strip_cr(l: Seq<char>) -> Seq<char> {
    if l.len() > 0 && l.last() == '\r' {
        l.drop_last()
    } else {
        l
    }
}

/// The lines of `s`, with `cur` already read into the first of them.
pub open spec fn lines_from(s: Seq<char>, cur: Seq<char>) -> Seq<Seq<char>>
    decreases s.len(),
{
    if s.len() == 0 {
        if cur.len() > 0 {
            seq![cur]
        } else {
            seq![]
        }
    } else if s[0] == '\n' {
        seq![strip_cr(cur)] + lines_from(s.drop_first(), seq![])
    } else {
        lines_from(s.drop_first(), cur.push(s[0]))
    }
}

/// What `str::lines` yields: the text between line feeds, a `\r`
/// before a line feed dropped, and no empty line after a final one.
pub open spec fn lines(s: Seq<char>) -> Seq<Seq<char>> {
    lines_from(s, seq![])
}

/// The items joined with `sep` between each two of them.
pub open spec fn join(items: Seq<Seq<char>>, sep: Seq<char>) -> Seq<char>
    decreases items.len(),
{
    if items.len() == 0 {
        seq![]
    } else if items.len() == 1 {
        items[0]
    } else {
        join(items.drop_last(), sep) + sep + items.last()
    }
}

/// ASCII letters mapped to lower case, everything else kept.
pub open spec fn ascii_lower(c: char) -> char {
    if 'A' <= c <= 'Z' {
        ((c as u32) + 32) as char
    } else {
        c
    }
}

/// Equal up to the case of ASCII letters, as `eq_ignore_ascii_case`.
pub open spec fn eq_ignore_ascii_case(a: Seq<char>, b: Seq<char>) -> bool {
    a.len() == b.len() && forall|i: int| 0 <= i < a.len() ==> ascii_lower(a[i]) == ascii_lower(b[i])
}

/// The views of a sequence of strings.
pub open spec fn views(v: Seq<String>) -> Seq<Seq<char>> {
    v.map_values(|s: String| s@)
}

// ---------------------------------------------------------------------
// Trusted access to `String` and `str::to_lowercase`
// ---------------------------------------------------------------------
/// Appends one character to a string.
///
/// Trusted: `String::push` appends `c` to the end of the string's
/// contents (std documentation); vstd gives it no specification.
#[verifier::external_body]
pub(crate) fn push_char(s: &mut String, c: char)
    ensures
        final(s)@ == old(s)@.push(c),
{
    s.push(c)
}

/// The Unicode lower-case mapping of a string, as `str::to_lowercase`
/// computes it.
pub uninterp spec fn unicode_lowercase(s: Seq<char>) -> Seq<char>;

/// Trusted: `str::to_lowercase` returns the lower-case equivalent of its
/// argument according to Unicode; that result depends on the argument
/// alone, and it is named `unicode_lowercase` here. Of text that is all
/// ASCII the one further claim is that it is lowered as ASCII is (the
/// Unicode lower-case mapping takes `A`..`Z` to `a`..`z` and keeps every
/// other ASCII character); nothing is claimed of other text.
#[verifier::external_body]
pub(crate) fn to_lowercase(s: &str) -> (r: String)
    ensures
        r@ == unicode_lowercase(s@),
        (forall|i: int| 0 <= i < s@.len() ==> (#[trigger] s@[i] as u32) < 0x80) ==> r@ == s@.map_values(
            |c: char| ascii_lower(c),
        ),
{
    s.to_lowercase()
}

// ---------------------------------------------------------------------
// Executable functions
// ---------------------------------------------------------------------
/// The characters of a string slice, in order.
pub fn chars_of(s: &str) -> (r: Vec<char>)
    ensures
        r@ == s@,
{
    let mut out: Vec<char> = Vec::new();
    for c in it: s.chars()
        invariant
            out@ == it.seq().take(it.index() as int),
    {
        out.push(c);
    }
    out
}

/// A string holding exactly the characters `cs`.
pub fn string_of(cs: &Vec<char>) -> (r: String)
    ensures
        r@ == cs@,
{
    let mut out = String::new();
    let mut i: usize = 0;
    while i < cs.len()
        invariant
            i <= cs.len(),
            out@ == cs@.take(i as int),
        decreases cs.len() - i,
    {
        push_char(&mut out, cs[i]);
        i = i + 1;
        assert(out@ == cs@.take(i as int));
    }
    assert(cs@.take(cs.len() as int) == cs@);
    out
}

/// A string holding the characters `cs[from..to]`.
pub fn string_of_range(cs: &Vec<char>, from: usize, to: usize) -> (r: String)
    requires
        from <= to <= cs.len(),
    ensures
        r@ == cs@.subrange(from as int, to as int),
{
    let mut out = String::new();
    let mut i: usize = from;
    while i < to
        invariant
            from <= i <= to <= cs.len(),
            out@ == cs@.subrange(from as int, i as int),
        decreases to - i,
    {
        push_char(&mut out, cs[i]);
        i = i + 1;
        assert(out@ == cs@.subrange(from as int, i as int));
    }
    out
}

/// The characters `cs[from..to]`.
pub fn sub_chars(cs: &Vec<char>, from: usize, to: usize) -> (r: Vec<char>)
    requires
        from <= to <= cs.len(),
    ensures
        r@ == cs@.subrange(from as int, to as int),
{
    let mut out: Vec<char> = Vec::new();
    let mut i: usize = from;
    while i < to
        invariant
            from <= i <= to <= cs.len(),
            out@ == cs@.subrange(from as int, i as int),
        decreases to - i,
    {
        out.push(cs[i]);
        i = i + 1;
        assert(out@ == cs@.subrange(from as int, i as int));
    }
    out
}

/// Appends the characters of `s` to `out`.
pub fn append_str(out: &mut Vec<char>, s: &str)
    ensures
        final(out)@ == old(out)@ + s@,
{
    let cs = chars_of(s);
    append_chars(out, &cs);
}

/// Appends `cs` to `out`.
pub fn append_chars(out: &mut Vec<char>, cs: &Vec<char>)
    ensures
        final(out)@ == old(out)@ + cs@,
{
    let ghost start = out@;
    let mut i: usize = 0;
    while i < cs.len()
        invariant
            i <= cs.len(),
            out@ == start + cs@.take(i as int),
        decreases cs.len() - i,
    {
        out.push(cs[i]);
        i = i + 1;
        assert(out@ == start + cs@.take(i as int));
    }
    assert(cs@.take(cs.len() as int) == cs@);
}

/// Char-wise equality.
pub fn chars_eq(a: &Vec<char>, b: &Vec<char>) -> (r: bool)
    ensures
        r == (a@ == b@),
{
    if a.len() != b.len() {
        return false;
    }
    let mut i: usize = 0;
    while i < a.len()
        invariant
            a.len() == b.len(),
            i <= a.len(),
            forall|j: int| 0 <= j < i ==> a@[j] == b@[j],
        decreases a.len() - i,
    {
        if a[i] != b[i] {
            return false;
        }
        i = i + 1;
    }
    assert(a@ =~= b@);
    true
}

/// Char-wise equality of a string with a character sequence.
pub fn str_eq_chars(s: &str, b: &Vec<char>) -> (r: bool)
    ensures
        r == (s@ == b@),
{
    let a = chars_of(s);
    chars_eq(&a, b)
}

/// Equality of two string slices.
pub fn str_eq(a: &str, b: &str) -> (r: bool)
    ensures
        r == (a@ == b@),
{
    let x = chars_of(a);
    let y = chars_of(b);
    chars_eq(&x, &y)
}

/// Whether `p` occurs in `s` at position `i`.
pub fn occurs_at_exec(s: &Vec<char>, p: &Vec<char>, i: usize) -> (r: bool)
    ensures
        r == occurs_at(s@, p@, i as int),
{
    if i > s.len() || p.len() > s.len() - i {
        return false;
    }
    let mut j: usize = 0;
    while j < p.len()
        invariant
            i + p.len() <= s.len(),
            j <= p.len(),
            forall|k: int| 0 <= k < j ==> s@[i + k] == p@[k],
        decreases p.len() - j,
    {
        if s[i + j] != p[j] {
            assert(s@.subrange(i as int, i + p.len())[j as int] != p@[j as int]);
            return false;
        }
        j = j + 1;
    }
    assert(s@.subrange(i as int, i + p.len()) =~= p@);
    true
}

/// Whether `p` is a prefix of `s`.
pub fn starts_with_exec(s: &Vec<char>, p: &Vec<char>) -> (r: bool)
    ensures
        r == starts_with(s@, p@),
{
    let r = occurs_at_exec(s, p, 0);
    assert(s@.subrange(0, p@.len() as int) == s@.take(p@.len() as int));
    r
}

/// Whether `p` is a suffix of `s`.
pub fn ends_with_exec(s: &Vec<char>, p: &Vec<char>) -> (r: bool)
    ensures
        r == ends_with(s@, p@),
{
    if p.len() > s.len() {
        return false;
    }
    let r = occurs_at_exec(s, p, s.len() - p.len());
    assert(s@.subrange(s.len() - p.len(), s.len() as int) == s@.skip(s.len() - p.len()));
    r
}

/// Whether `p` occurs in `s`.
pub fn contains_exec(s: &Vec<char>, p: &Vec<char>) -> (r: bool)
    ensures
        r == contains(s@, p@),
{
    let mut i: usize = 0;
    while i < s.len()
        invariant
            i <= s.len(),
            forall|k: int| 0 <= k < i ==> !occurs_at(s@, p@, k),
        decreases s.len() - i,
    {
        if occurs_at_exec(s, p, i) {
            return true;
        }
        i = i + 1;
    }
    let last = occurs_at_exec(s, p, i);
    if last {
        return true;
    }
    assert forall|k: int| !occurs_at(s@, p@, k) by {
        if 0 <= k < i {
            assert(!occurs_at(s@, p@, k));
        } else if k == i {
            assert(!occurs_at(s@, p@, i as int));
        } else if k > i {
            assert(k + p@.len() > s@.len());
        }
    }
    false
}

/// Whether a character is Unicode white space.
pub fn is_ws_exec(c: char) -> (r: bool)
    ensures
        r == is_ws(c),
{
    let u = c as u32;
    (0x09 <= u && u <= 0x0d) || u == 0x20 || u == 0x85 || u == 0xa0 || u == 0x1680 || (0x2000
        <= u && u <= 0x200a) || u == 0x2028 || u == 0x2029 || u == 0x202f || u == 0x205f || u
        == 0x3000
}

/// `trim_start` of `s` is what follows its leading white space.
pub proof fn lemma_trim_start_skip(s: Seq<char>, i: int)
    requires
        0 <= i <= s.len(),
        forall|j: int| 0 <= j < i ==> is_ws(s[j]),
    ensures
        trim_start(s) == trim_start(s.skip(i)),
    decreases i,
{
    if i > 0 {
        assert(s.skip(1).skip(i - 1) == s.skip(i));
        lemma_trim_start_skip(s.drop_first(), i - 1);
    } else {
        assert(s.skip(0) == s);
    }
}

/// `trim_end` of `s` is what precedes its trailing white space.
pub proof fn lemma_trim_end_take(s: Seq<char>, i: int)
    requires
        0 <= i <= s.len(),
        forall|j: int| i <= j < s.len() ==> is_ws(s[j]),
    ensures
        trim_end(s) == trim_end(s.take(i)),
    decreases s.len() - i,
{
    if i < s.len() {
        assert(s.drop_last().take(i) == s.take(i));
        lemma_trim_end_take(s.drop_last(), i);
    } else {
        assert(s.take(i) == s);
    }
}

/// The index of the first non-white-space character at or after `from`
/// (or the length).
pub fn skip_ws(cs: &Vec<char>, from: usize) -> (r: usize)
    requires
        from <= cs.len(),
    ensures
        from <= r <= cs.len(),
        forall|j: int| from <= j < r ==> is_ws(cs@[j]),
        r < cs.len() ==> !is_ws(cs@[r as int]),
{
    let mut i = from;
    while i < cs.len() && is_ws_exec(cs[i])
        invariant
            from <= i <= cs.len(),
            forall|j: int| from <= j < i ==> is_ws(cs@[j]),
        decreases cs.len() - i,
    {
        i = i + 1;
    }
    i
}

/// `cs` without leading white space.
pub fn trim_start_exec(cs: &Vec<char>) -> (r: Vec<char>)
    ensures
        r@ == trim_start(cs@),
{
    let i = skip_ws(cs, 0);
    proof {
        lemma_trim_start_skip(cs@, i as int);
        if i < cs.len() {
            assert(cs@.skip(i as int)[0] == cs@[i as int]);
        }
    }
    sub_chars(cs, i, cs.len())
}

/// `cs` without trailing white space.
pub fn trim_end_exec(cs: &Vec<char>) -> (r: Vec<char>)
    ensures
        r@ == trim_end(cs@),
{
    let mut i = cs.len();
    while i > 0 && is_ws_exec(cs[i - 1])
        invariant
            i <= cs.len(),
            forall|j: int| i <= j < cs.len() ==> is_ws(cs@[j]),
        decreases i,
    {
        i = i - 1;
    }
    proof {
        lemma_trim_end_take(cs@, i as int);
        if i > 0 {
            assert(cs@.take(i as int).last() == cs@[i - 1]);
        }
    }
    assert(cs@.subrange(0, i as int) == cs@.take(i as int));
    sub_chars(cs, 0, i)
}

/// `cs` without white space at either end.
pub fn trim_exec(cs: &Vec<char>) -> (r: Vec<char>)
    ensures
        r@ == trim(cs@),
{
    let a = trim_start_exec(cs);
    trim_end_exec(&a)
}

/// `replace` with a non-empty pattern.
pub fn replace_exec(s: &Vec<char>, p: &Vec<char>, r: &Vec<char>) -> (out: Vec<char>)
    requires
        p@.len() > 0,
    ensures
        out@ == replace(s@, p@, r@),
{
    let mut out: Vec<char> = Vec::new();
    let mut i: usize = 0;
    assert(s@.skip(0) == s@);
    assert(seq![] + replace(s@, p@, r@) == replace(s@, p@, r@));
    while i < s.len()
        invariant
            p@.len() > 0,
            i <= s.len(),
            out@ + replace(s@.skip(i as int), p@, r@) == replace(s@, p@, r@),
        decreases s.len() - i,
    {
        let ghost rest = s@.skip(i as int);
        if occurs_at_exec(s, p, i) {
            proof {
                assert(rest.take(p@.len() as int) == s@.subrange(i as int, i + p@.len()));
                assert(rest.skip(p@.len() as int) == s@.skip(i + p@.len()));
            }
            append_chars(&mut out, r);
            i = i + p.len();
        } else {
            proof {
                if rest.len() >= p@.len() {
                    assert(rest.take(p@.len() as int) == s@.subrange(i as int, i + p@.len()));
                } else {
                    assert(rest.drop_first() == s@.skip(i + 1));
                    let t = rest.drop_first();
                    assert(t.len() < p@.len());
                    assert(replace(t, p@, r@) == t);
                    assert(replace(rest, p@, r@) == rest);
                    assert(rest =~= seq![rest[0]] + t);
                }
                assert(rest.drop_first() == s@.skip(i + 1));
                assert(rest[0] == s@[i as int]);
            }
            out.push(s[i]);
            i = i + 1;
        }
    }
    assert(s@.skip(i as int).len() == 0);
    assert(out@ + seq![] == out@);
    out
}

/// `replace` on strings, with a non-empty pattern.
pub fn replace_str(s: &str, p: &str, r: &str) -> (out: String)
    requires
        p@.len() > 0,
    ensures
        out@ == replace(s@, p@, r@),
{
    let sc = chars_of(s);
    let pc = chars_of(p);
    let rc = chars_of(r);
    let o = replace_exec(&sc, &pc, &rc);
    string_of(&o)
}

/// What `str::split_whitespace` yields.
pub fn words_exec(s: &Vec<char>) -> (out: Vec<Vec<char>>)
    ensures
        out@.map_values(|w: Vec<char>| w@) == words(s@),
{
    let mut out: Vec<Vec<char>> = Vec::new();
    let mut cur: Vec<char> = Vec::new();
    let mut i: usize = 0;
    assert(s@.skip(0) == s@);
    assert(out@.map_values(|w: Vec<char>| w@) =~= seq![]);
    assert(cur@ =~= seq![]);
    while i < s.len()
        invariant
            i <= s.len(),
            out@.map_values(|w: Vec<char>| w@) + words_from(s@.skip(i as int), cur@) == words(s@),
        decreases s.len() - i,
    {
        let ghost rest = s@.skip(i as int);
        let ghost before = out@.map_values(|w: Vec<char>| w@);
        proof {
            assert(rest.drop_first() == s@.skip(i + 1));
            assert(rest[0] == s@[i as int]);
        }
        if is_ws_exec(s[i]) {
            if cur.len() > 0 {
                let done = cur;
                out.push(done);
                cur = Vec::new();
                proof {
                    assert(out@.map_values(|w: Vec<char>| w@) == before.push(done@));
                    assert(before + (seq![done@] + words_from(s@.skip(i + 1), seq![])) == before.push(done@) + words_from(s@.skip(i + 1), seq![]));
                }
            } else {
                assert(cur@ =~= seq![]);
                assert(seq![] + words_from(s@.skip(i + 1), seq![]) == words_from(s@.skip(i + 1), seq![]));
            }
        } else {
            cur.push(s[i]);
        }
        i = i + 1;
    }
    let ghost before = out@.map_values(|w: Vec<char>| w@);
    if cur.len() > 0 {
        let done = cur;
        out.push(done);
        assert(out@.map_values(|w: Vec<char>| w@) == before.push(done@));
    } else {
        assert(before + seq![] == before);
    }
    out
}

/// What `str::split(c)` yields.
pub fn split_exec(s: &Vec<char>, c: char) -> (out: Vec<Vec<char>>)
    ensures
        out@.map_values(|w: Vec<char>| w@) == split_on(s@, c),
{
    let mut out: Vec<Vec<char>> = Vec::new();
    let mut cur: Vec<char> = Vec::new();
    let mut i: usize = 0;
    assert(s@.skip(0) == s@);
    assert(out@.map_values(|w: Vec<char>| w@) =~= seq![]);
    assert(cur@ =~= seq![]);
    while i < s.len()
        invariant
            i <= s.len(),
            out@.map_values(|w: Vec<char>| w@) + split_from(s@.skip(i as int), c, cur@) == split_on(s@, c),
        decreases s.len() - i,
    {
        let ghost rest = s@.skip(i as int);
        let ghost before = out@.map_values(|w: Vec<char>| w@);
        proof {
            assert(rest.drop_first() == s@.skip(i + 1));
            assert(rest[0] == s@[i as int]);
        }
        if s[i] == c {
            let done = cur;
            out.push(done);
            cur = Vec::new();
            proof {
                assert(out@.map_values(|w: Vec<char>| w@) == before.push(done@));
                assert(before + (seq![done@] + split_from(s@.skip(i + 1), c, seq![])) == before.push(done@) + split_from(s@.skip(i + 1), c, seq![]));
            }
        } else {
            cur.push(s[i]);
        }
        i = i + 1;
    }
    let ghost before = out@.map_values(|w: Vec<char>| w@);
    let done = cur;
    out.push(done);
    assert(out@.map_values(|w: Vec<char>| w@) == before.push(done@));
    out
}

/// What `str::lines` yields.
pub fn lines_exec(s: &Vec<char>) -> (out: Vec<Vec<char>>)
    ensures
        out@.map_values(|w: Vec<char>| w@) == lines(s@),
{
    let mut out: Vec<Vec<char>> = Vec::new();
    let mut cur: Vec<char> = Vec::new();
    let mut i: usize = 0;
    assert(s@.skip(0) == s@);
    assert(out@.map_values(|w: Vec<char>| w@) =~= seq![]);
    assert(cur@ =~= seq![]);
    while i < s.len()
        invariant
            i <= s.len(),
            out@.map_values(|w: Vec<char>| w@) + lines_from(s@.skip(i as int), cur@) == lines(s@),
        decreases s.len() - i,
    {
        let ghost rest = s@.skip(i as int);
        let ghost before = out@.map_values(|w: Vec<char>| w@);
        proof {
            assert(rest.drop_first() == s@.skip(i + 1));
            assert(rest[0] == s@[i as int]);
        }
        if s[i] == '\n' {
            if cur.len() > 0 && cur[cur.len() - 1] == '\r' {
                cur.pop();
            }
            let done = cur;
            out.push(done);
            cur = Vec::new();
            proof {
                assert(out@.map_values(|w: Vec<char>| w@) == before.push(done@));
                assert(before + (seq![done@] + lines_from(s@.skip(i + 1), seq![])) == before.push(done@) + lines_from(s@.skip(i + 1), seq![]));
            }
        } else {
            cur.push(s[i]);
        }
        i = i + 1;
    }
    let ghost before = out@.map_values(|w: Vec<char>| w@);
    if cur.len() > 0 {
        let done = cur;
        out.push(done);
        assert(out@.map_values(|w: Vec<char>| w@) == before.push(done@));
    } else {
        assert(before + seq![] == before);
    }
    out
}

/// The items joined with single spaces.
pub fn join_space(items: &Vec<Vec<char>>) -> (out: Vec<char>)
    ensures
        out@ == join(items@.map_values(|w: Vec<char>| w@), seq![' ']),
{
    let ghost v = items@.map_values(|w: Vec<char>| w@);
    let mut out: Vec<char> = Vec::new();
    let mut i: usize = 0;
    while i < items.len()
        invariant
            i <= items.len(),
            v == items@.map_values(|w: Vec<char>| w@),
            out@ == join(v.take(i as int), seq![' ']),
        decreases items.len() - i,
    {
        if i > 0 {
            out.push(' ');
        }
        append_chars(&mut out, &items[i]);
        proof {
            assert(v.take(i + 1).drop_last() == v.take(i as int));
            assert(v.take(i + 1).last() == items@[i as int]@);
            if i == 0 {
                assert(out@ == seq![] + items@[0]@);
            }
        }
        i = i + 1;
    }
    assert(v.take(items.len() as int) == v);
    out
}

/// `eq_ignore_ascii_case` on character sequences.
pub fn eq_ignore_ascii_case_exec(a: &Vec<char>, b: &Vec<char>) -> (r: bool)
    ensures
        r == eq_ignore_ascii_case(a@, b@),
{
    if a.len() != b.len() {
        return false;
    }
    let mut i: usize = 0;
    while i < a.len()
        invariant
            a.len() == b.len(),
            i <= a.len(),
            forall|j: int| 0 <= j < i ==> ascii_lower(a@[j]) == ascii_lower(b@[j]),
        decreases a.len() - i,
    {
        let x = a[i];
        let y = b[i];
        let lx = if 'A' <= x && x <= 'Z' {
            ((x as u32) + 32) as u32
        } else {
            x as u32
        };
        let ly = if 'A' <= y && y <= 'Z' {
            ((y as u32) + 32) as u32
        } else {
            y as u32
        };
        proof {
            assert(lx == ascii_lower(x) as u32);
            assert(ly == ascii_lower(y) as u32);
        }
        if lx != ly {
            return false;
        }
        i = i + 1;
    }
    true
}

/// No character of `s` is white space.
pub open spec fn no_ws(s: Seq<char>) -> bool {
    forall|i: int| 0 <= i < s.len() ==> !is_ws(#[trigger] s[i])
}

proof fn lemma_words_from_run(x: Seq<char>, s: Seq<char>, cur: Seq<char>)
    requires
        no_ws(x),
    ensures
        words_from(x + s, cur) == words_from(s, cur + x),
    decreases x.len(),
{
    if x.len() > 0 {
        assert((x + s)[0] == x[0]);
        assert((x + s).drop_first() =~= x.drop_first() + s);
        lemma_words_from_run(x.drop_first(), s, cur.push(x[0]));
        assert(cur.push(x[0]) + x.drop_first() =~= cur + x);
    } else {
        assert(x + s =~= s);
        assert(cur + x =~= cur);
    }
}

pub(crate) proof fn lemma_join_front(items: Seq<Seq<char>>, sep: Seq<char>)
    requires
        items.len() >= 2,
    ensures
        join(items, sep) == items[0] + sep + join(items.drop_first(), sep),
    decreases items.len(),
{
    if items.len() > 2 {
        lemma_join_front(items.drop_last(), sep);
        assert(items.drop_last().drop_first() =~= items.drop_first().drop_last());
        assert(items.drop_first().last() == items.last());
        assert(items.drop_last()[0] == items[0]);
        let a = items[0];
        let m = join(items.drop_first().drop_last(), sep);
        assert(join(items.drop_first(), sep) == m + sep + items.last());
        assert(join(items, sep) == (a + sep + m) + sep + items.last());
        assert((a + sep + m) + sep + items.last() =~= a + sep + (m + sep + items.last()));
    } else {
        assert(items.drop_first().len() == 1);
        assert(items.drop_last().len() == 1);
        assert(items.drop_last()[0] == items[0]);
        assert(items.drop_first()[0] == items.last());
        assert(join(items.drop_last(), sep) == items[0]);
        assert(join(items.drop_first(), sep) == items.last());
    }
}

/// Joining non-empty words without white space with single spaces and
/// splitting the result on white space gives the words back.
pub proof fn lemma_words_of_join(ps: Seq<Seq<char>>)
    requires
        forall|i: int| 0 <= i < ps.len() ==> #[trigger] ps[i].len() > 0 && no_ws(ps[i]),
    ensures
        words(join(ps, seq![' '])) == ps,
    decreases ps.len(),
{
    if ps.len() == 0 {
    } else if ps.len() == 1 {
        let p = ps[0];
        assert(ps[0].len() > 0 && no_ws(ps[0]));
        lemma_words_from_run(p, seq![], seq![]);
        assert(p + Seq::<char>::empty() =~= p);
        assert(Seq::<char>::empty() + p =~= p);
        assert(words_from(Seq::<char>::empty(), p) == seq![p]);
        assert(ps =~= seq![p]);
    } else {
        let p = ps[0];
        let rest = join(ps.drop_first(), seq![' ']);
        assert(ps[0].len() > 0 && no_ws(ps[0]));
        lemma_join_front(ps, seq![' ']);
        assert(p + seq![' '] + rest =~= p + (seq![' '] + rest));
        lemma_words_from_run(p, seq![' '] + rest, seq![]);
        assert(Seq::<char>::empty() + p =~= p);
        assert((seq![' '] + rest)[0] == ' ');
        assert((seq![' '] + rest).drop_first() =~= rest);
        assert(is_ws(' '));
        assert forall|i: int| 0 <= i < ps.drop_first().len() implies #[trigger] ps.drop_first()[i].len()
            > 0 && no_ws(ps.drop_first()[i]) by {
            assert(ps.drop_first()[i] == ps[i + 1]);
        }
        lemma_words_of_join(ps.drop_first());
        assert(words_from(seq![' '] + rest, p) == seq![p] + words_from(rest, seq![]));
        assert(seq![p] + ps.drop_first() =~= ps);
    }
}

} // verus!
