//! The pathfilter text format, stated as spec functions on characters.
//!
//! A file is split into lines at `'\n'` (a final empty line is not a line).
//! A trailing `'\r'` is dropped from each line, then trailing blanks (space or
//! tab) are dropped unless the blank is escaped by a backslash. What is left
//! is one of:
//!
//! ```text
//! blank      = blank-char*
//! comment    = blank-char* "#" any*
//! directives = blank-char* directive (blank-char+ directive)*
//! pattern    = blank-char* (directive blank-char+)* ["!"] glob
//! directive  = "@" key ":" value
//! key        = (ASCII letter | digit | "_" | "-")+
//! value      = bare | quoted
//! bare       = (any but blank-char and '"')+
//! quoted     = '"' (("\" any) | any but '"' and "\")* '"'
//! glob       = any+            (the rest of the line)
//! ```
//!
//! A quoted value stands for its content with each backslash escape replaced
//! by the escaped character.
use vstd::prelude::*;

verus! {

/// A directive as written before a pattern: `@key:value`.
pub struct DirectiveModel {
    pub key: Seq<char>,
    pub value: Seq<char>,
}

/// What one line of a pathfilter file holds.
pub enum EntryModel {
    Blank,
    Comment,
    Directives(Seq<DirectiveModel>),
    Pattern { directives: Seq<DirectiveModel>, negated: bool, glob: Seq<char> },
}

pub open spec fn is_blank(c: char) -> bool {
    c == ' ' || c == '\t'
}

pub open spec fn is_key_char(c: char) -> bool {
    ('a' <= c && c <= 'z') || ('A' <= c && c <= 'Z') || ('0' <= c && c <= '9') || c == '_' || c
        == '-'
}

// ---------------------------------------------------------------------------
// Lines
/// Index of the first `'\n'` at or after `i`, or the length of `s`.
pub open spec fn line_end(s: Seq<char>, i: int) -> int
    decreases s.len() - i,
{
    if i >= s.len() {
        s.len() as int
    } else if s[i] == '\n' {
        i
    } else {
        line_end(s, i + 1)
    }
}

pub proof fn lemma_line_end_bounds(s: Seq<char>, i: int)
    requires
        i <= s.len(),
    ensures
        i <= line_end(s, i) <= s.len(),
        line_end(s, i) < s.len() ==> s[line_end(s, i)] == '\n',
    decreases s.len() - i,
{
    if i < s.len() && s[i] != '\n' {
        lemma_line_end_bounds(s, i + 1);
    }
}

/// The lines of `s` from index `start` on.
pub open spec fn lines_from(s: Seq<char>, start: int) -> Seq<Seq<char>>
    decreases s.len() - start,
{
    if start >= s.len() || start < 0 {
        seq![]
    } else {
        let e: int = line_end(s, start);
        proof {
            lemma_line_end_bounds(s, start);
        }
        if e >= s.len() {
            seq![s.subrange(start, s.len() as int)]
        } else {
            seq![s.subrange(start, e)] + lines_from(s, e + 1)
        }
    }
}

/// The lines of a whole file.
pub open spec fn file_lines(s: Seq<char>) -> Seq<Seq<char>> {
    lines_from(s, 0)
}

// ---------------------------------------------------------------------------
// One line
pub open spec fn without_cr(l: Seq<char>) -> Seq<char> {
    if l.len() > 0 && l.last() == '\r' {
        l.drop_last()
    } else {
        l
    }
}

/// Length of `l.subrange(0, n)` once unescaped trailing blanks are dropped.
pub open spec fn trimmed_len(l: Seq<char>, n: int) -> int
    decreases n,
{
    if 0 < n <= l.len() && is_blank(l[n - 1]) && !(n >= 2 && l[n - 2] == '\\') {
        trimmed_len(l, n - 1)
    } else {
        n
    }
}

pub proof fn lemma_trimmed_len_bounds(l: Seq<char>, n: int)
    requires
        0 <= n,
    ensures
        0 <= trimmed_len(l, n) <= n,
    decreases n,
{
    if 0 < n <= l.len() && is_blank(l[n - 1]) && !(n >= 2 && l[n - 2] == '\\') {
        lemma_trimmed_len_bounds(l, n - 1);
    }
}

/// The part of a line that the grammar reads.
pub open spec fn trim_line(l: Seq<char>) -> Seq<char> {
    let c = without_cr(l);
    c.subrange(0, trimmed_len(c, c.len() as int))
}

pub open spec fn skip_blanks(s: Seq<char>, i: int) -> int
    decreases s.len() - i,
{
    if 0 <= i < s.len() && is_blank(s[i]) {
        skip_blanks(s, i + 1)
    } else {
        i
    }
}

pub open spec fn key_end(s: Seq<char>, i: int) -> int
    decreases s.len() - i,
{
    if 0 <= i < s.len() && is_key_char(s[i]) {
        key_end(s, i + 1)
    } else {
        i
    }
}

pub open spec fn bare_end(s: Seq<char>, i: int) -> int
    decreases s.len() - i,
{
    if 0 <= i < s.len() && !is_blank(s[i]) && s[i] != '"' {
        bare_end(s, i + 1)
    } else {
        i
    }
}

/// Index of the quote that closes a quoted value whose content starts at `i`.
pub open spec fn quoted_close(s: Seq<char>, i: int) -> Option<int>
    decreases s.len() - i,
{
    if i < 0 || i >= s.len() {
        None
    } else if s[i] == '"' {
        Some(i)
    } else if s[i] == '\\' {
        if i + 1 >= s.len() {
            None
        } else {
            quoted_close(s, i + 2)
        }
    } else {
        quoted_close(s, i + 1)
    }
}

/// Every backslash in `s` is followed by the character it escapes.
pub open spec fn escapes_complete(s: Seq<char>) -> bool
    decreases s.len(),
{
    if s.len() == 0 {
        true
    } else if s[0] == '\\' {
        s.len() >= 2 && escapes_complete(s.skip(2))
    } else {
        escapes_complete(s.skip(1))
    }
}

/// `s` with each backslash escape replaced by the escaped character.
pub open spec fn unescape(s: Seq<char>) -> Seq<char>
    decreases s.len(),
{
    if s.len() == 0 {
        seq![]
    } else if s[0] == '\\' && s.len() >= 2 {
        seq![s[1]] + unescape(s.skip(2))
    } else {
        seq![s[0]] + unescape(s.skip(1))
    }
}

/// A directive value at `i`: its text and the index after it, or the index
/// at which the value is malformed.
pub open spec fn parse_value(s: Seq<char>, i: int) -> Result<(Seq<char>, int), int> {
    if i < 0 || i >= s.len() {
        Err(i)
    } else if s[i] == '"' {
        match quoted_close(s, i + 1) {
            Some(c) => Ok((unescape(s.subrange(i + 1, c)), c + 1)),
            None => Err(s.len() as int),
        }
    } else {
        let e: int = bare_end(s, i);
        if e == i {
            Err(i)
        } else {
            Ok((s.subrange(i, e), e))
        }
    }
}

/// A directive whose `@` stands at `i`.
pub open spec fn parse_directive(s: Seq<char>, i: int) -> Result<(DirectiveModel, int), int> {
    let k: int = key_end(s, i + 1);
    if k == i + 1 {
        Err(i + 1)
    } else if k >= s.len() || s[k] != ':' {
        Err(k)
    } else {
        match parse_value(s, k + 1) {
            Err(p) => Err(p),
            Ok((v, e)) => Ok((DirectiveModel { key: s.subrange(i + 1, k), value: v }, e)),
        }
    }
}

/// The directives and the pattern of a line, from index `i` on, after the
/// directives `dirs` have been read.
pub open spec fn parse_items(s: Seq<char>, i: int, dirs: Seq<DirectiveModel>) -> Result<
    EntryModel,
    int,
>
    decreases s.len() - i,
{
    if i < 0 || i >= s.len() {
        Ok(EntryModel::Directives(dirs))
    } else if s[i] == '@' {
        match parse_directive(s, i) {
            Err(p) => Err(p),
            Ok((d, e)) => {
                let ds = dirs.push(d);
                if e >= s.len() {
                    Ok(EntryModel::Directives(ds))
                } else if !is_blank(s[e]) {
                    Err(e)
                } else {
                    let n: int = skip_blanks(s, e);
                    proof {
                        lemma_directive_advances(s, i);
                        lemma_skip_blanks_bounds(s, e);
                    }
                    if n >= s.len() {
                        Ok(EntryModel::Directives(ds))
                    } else {
                        parse_items(s, n, ds)
                    }
                }
            },
        }
    } else if s[i] == '!' {
        if i + 1 >= s.len() {
            Err(i + 1)
        } else {
            Ok(
                EntryModel::Pattern {
                    directives: dirs,
                    negated: true,
                    glob: s.subrange(i + 1, s.len() as int),
                },
            )
        }
    } else {
        Ok(EntryModel::Pattern { directives: dirs, negated: false, glob: s.subrange(i, s.len() as int) })
    }
}

/// One line: what it holds, or the index at which it is malformed.
pub open spec fn parse_line(l: Seq<char>) -> Result<EntryModel, int> {
    let t = trim_line(l);
    let p: int = skip_blanks(t, 0);
    if p >= t.len() {
        Ok(EntryModel::Blank)
    } else if t[p] == '#' {
        Ok(EntryModel::Comment)
    } else {
        parse_items(t, p, seq![])
    }
}

/// Lines read in order: the entries, or the (0-based) line and index of the
/// first malformed line.
pub open spec fn parse_lines(ls: Seq<Seq<char>>) -> Result<Seq<EntryModel>, (int, int)>
    decreases ls.len(),
{
    if ls.len() == 0 {
        Ok(seq![])
    } else {
        match parse_lines(ls.drop_last()) {
            Err(e) => Err(e),
            Ok(es) => match parse_line(ls.last()) {
                Ok(e) => Ok(es.push(e)),
                Err(c) => Err(((ls.len() - 1) as int, c)),
            },
        }
    }
}

/// A whole file.
pub open spec fn parse_file(s: Seq<char>) -> Result<Seq<EntryModel>, (int, int)> {
    parse_lines(file_lines(s))
}

// ---------------------------------------------------------------------------
// Facts used by the parser.
/// Once a line is malformed, the lines after it do not change the outcome.
pub proof fn lemma_parse_lines_error_stays(a: Seq<Seq<char>>, b: Seq<Seq<char>>)
    requires
        parse_lines(a) is Err,
    ensures
        parse_lines(a + b) == parse_lines(a),
    decreases b.len(),
{
    if b.len() == 0 {
        assert(a + b =~= a);
    } else {
        lemma_parse_lines_error_stays(a, b.drop_last());
        assert((a + b).drop_last() =~= a + b.drop_last());
    }
}

pub proof fn lemma_skip_blanks_bounds(s: Seq<char>, i: int)
    requires
        0 <= i <= s.len(),
    ensures
        i <= skip_blanks(s, i) <= s.len(),
        skip_blanks(s, i) < s.len() ==> !is_blank(s[skip_blanks(s, i)]),
    decreases s.len() - i,
{
    if i < s.len() && is_blank(s[i]) {
        lemma_skip_blanks_bounds(s, i + 1);
    }
}

pub proof fn lemma_key_end_bounds(s: Seq<char>, i: int)
    requires
        0 <= i <= s.len(),
    ensures
        i <= key_end(s, i) <= s.len(),
    decreases s.len() - i,
{
    if i < s.len() && is_key_char(s[i]) {
        lemma_key_end_bounds(s, i + 1);
    }
}

pub proof fn lemma_bare_end_bounds(s: Seq<char>, i: int)
    requires
        0 <= i <= s.len(),
    ensures
        i <= bare_end(s, i) <= s.len(),
    decreases s.len() - i,
{
    if i < s.len() && !is_blank(s[i]) && s[i] != '"' {
        lemma_bare_end_bounds(s, i + 1);
    }
}

pub proof fn lemma_quoted_close(s: Seq<char>, i: int)
    requires
        0 <= i,
    ensures
        quoted_close(s, i) matches Some(c) ==> {
            &&& i <= c < s.len()
            &&& s[c] == '"'
            &&& escapes_complete(s.subrange(i, c))
        },
    decreases s.len() - i,
{
    if i < s.len() && s[i] != '"' {
        if s[i] == '\\' {
            if i + 1 < s.len() {
                lemma_quoted_close(s, i + 2);
                if let Some(c) = quoted_close(s, i + 2) {
                    assert(s.subrange(i, c).skip(2) =~= s.subrange(i + 2, c));
                }
            }
        } else {
            lemma_quoted_close(s, i + 1);
            if let Some(c) = quoted_close(s, i + 1) {
                assert(s.subrange(i, c).skip(1) =~= s.subrange(i + 1, c));
            }
        }
    } else if i < s.len() {
        assert(s.subrange(i, i) =~= Seq::<char>::empty());
    }
}

pub proof fn lemma_value_advances(s: Seq<char>, i: int)
    requires
        0 <= i,
    ensures
        parse_value(s, i) matches Ok((_, e)) ==> i < e <= s.len(),
{
    if 0 <= i < s.len() {
        if s[i] == '"' {
            lemma_quoted_close(s, i + 1);
        } else {
            lemma_bare_end_bounds(s, i);
        }
    }
}

pub proof fn lemma_directive_advances(s: Seq<char>, i: int)
    requires
        0 <= i,
    ensures
        parse_directive(s, i) matches Ok((_, e)) ==> i < e <= s.len(),
{
    if i + 1 <= s.len() {
        lemma_key_end_bounds(s, i + 1);
        lemma_value_advances(s, key_end(s, i + 1) + 1);
    }
}

// ---------------------------------------------------------------------------
// Facts about splitting text into lines.
pub proof fn lemma_line_end_shift(x: Seq<char>, z: Seq<char>, j: int)
    requires
        0 <= j,
    ensures
        line_end(x + z, x.len() + j) == x.len() + line_end(z, j),
    decreases z.len() - j,
{
    if j < z.len() {
        assert((x + z)[x.len() + j] == z[j]);
        if z[j] != '\n' {
            lemma_line_end_shift(x, z, j + 1);
        }
    }
}

/// The lines of `x + z` from inside `z` are the lines of `z`.
pub proof fn lemma_lines_shift(x: Seq<char>, z: Seq<char>, j: int)
    requires
        0 <= j,
    ensures
        lines_from(x + z, x.len() + j) == lines_from(z, j),
    decreases z.len() - j,
{
    if j < z.len() {
        lemma_line_end_shift(x, z, j);
        lemma_line_end_bounds(z, j);
        let e = line_end(z, j);
        assert((x + z).subrange(x.len() + j, x.len() + e) =~= z.subrange(j, e));
        if e < z.len() {
            lemma_lines_shift(x, z, e + 1);
        } else {
            assert((x + z).subrange(x.len() + j, (x + z).len() as int) =~= z.subrange(
                j,
                z.len() as int,
            ));
        }
    }
}

pub proof fn lemma_line_end_within(x: Seq<char>, z: Seq<char>, i: int)
    requires
        0 <= i < x.len(),
        x.last() == '\n',
    ensures
        line_end(x + z, i) == line_end(x, i),
        i <= line_end(x, i) < x.len(),
    decreases x.len() - i,
{
    assert((x + z)[i] == x[i]);
    if x[i] != '\n' {
        lemma_line_end_within(x, z, i + 1);
    }
}

/// Lines end at a newline: the lines of `x + z`, where `x` is empty or ends
/// with `'\n'`, are those of `x` followed by those of `z`.
pub proof fn lemma_lines_concat(x: Seq<char>, z: Seq<char>, i: int)
    requires
        0 <= i <= x.len(),
        x.len() == 0 || x.last() == '\n',
    ensures
        lines_from(x + z, i) == lines_from(x, i) + lines_from(z, 0),
    decreases x.len() - i,
{
    if i == x.len() {
        lemma_lines_shift(x, z, 0);
        assert(lines_from(x, i) + lines_from(z, 0) =~= lines_from(z, 0));
    } else {
        lemma_line_end_within(x, z, i);
        let e = line_end(x, i);
        assert((x + z).subrange(i, e) =~= x.subrange(i, e));
        lemma_lines_concat(x, z, e + 1);
        assert(seq![x.subrange(i, e)] + lines_from(x, e + 1) + lines_from(z, 0) =~= seq![
            x.subrange(i, e),
        ] + (lines_from(x, e + 1) + lines_from(z, 0)));
    }
}

/// A line `l` (without `'\n'`) followed by a newline and more text is one
/// line, then the lines of that text.
pub proof fn lemma_lines_of_line(l: Seq<char>, y: Seq<char>)
    requires
        !l.contains('\n'),
    ensures
        file_lines(l.push('\n') + y) == seq![l] + file_lines(y),
{
    let m = l.push('\n');
    assert forall|i: int| 0 <= i <= l.len() implies line_end(m, i) == l.len() by {
        lemma_line_end_in_line(l, i);
    }
    lemma_line_end_within(m, y, 0);
    assert((m + y).subrange(0, l.len() as int) =~= l);
    lemma_lines_shift(m, y, 0);
}

proof fn lemma_line_end_in_line(l: Seq<char>, i: int)
    requires
        !l.contains('\n'),
        0 <= i <= l.len(),
    ensures
        line_end(l.push('\n'), i) == l.len(),
    decreases l.len() - i,
{
    if i < l.len() {
        assert(l.push('\n')[i] == l[i]);
        assert(l[i] != '\n');
        lemma_line_end_in_line(l, i + 1);
    }
}

} // verus!
