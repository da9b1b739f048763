//! Reading pathfilter text into entries, one per line.
use vstd::prelude::*;

use crate::error::{Error, ErrorModel};
use crate::grammar::{
    bare_end, escapes_complete, file_lines, is_blank, is_key_char, key_end, lemma_directive_advances, lemma_parse_lines_error_stays,
    lemma_quoted_close, line_end, lines_from, parse_directive, parse_file, parse_items, parse_line,
    parse_lines, parse_value, quoted_close, skip_blanks, trim_line, trimmed_len, unescape,
    without_cr, DirectiveModel, EntryModel,
};
use crate::text::{chars_of, push_char, string_of, subvec};

verus! {

/// A parsed pathfilter file: one entry per line.
#[derive(Debug, PartialEq, Eq)]
pub struct PatternFile {
    pub entries: Vec<PatternFileEntry>,
}

/// One line of a pathfilter file.
#[derive(Debug, PartialEq, Eq)]
pub enum PatternFileEntry {
    Blank {},
    Comment {},
    Directive { directives: Vec<Directive> },
    Pattern { directives: Vec<Directive>, pattern: GlobPattern },
}

/// A glob pattern, possibly negated with a leading `!`.
#[derive(Debug, PartialEq, Eq)]
pub struct GlobPattern {
    pub negated: bool,
    pub pattern: String,
}

/// A directive `@key:value`.
#[derive(Debug, PartialEq, Eq)]
pub struct Directive {
    pub key: String,
    pub value: String,
}

/// The value of a directive, with quotes and escapes resolved.
#[derive(Debug, PartialEq, Eq)]
pub struct StringLiteral {
    pub value: String,
}

impl View for Directive {
    type V = DirectiveModel;

    open spec fn view(&self) -> DirectiveModel {
        DirectiveModel { key: self.key@, value: self.value@ }
    }
}

pub open spec fn directives_model(ds: Seq<Directive>) -> Seq<DirectiveModel> {
    ds.map_values(|d: Directive| d@)
}

impl View for PatternFileEntry {
    type V = EntryModel;

    open spec fn view(&self) -> EntryModel {
        match self {
            PatternFileEntry::Blank {  } => EntryModel::Blank,
            PatternFileEntry::Comment {  } => EntryModel::Comment,
            PatternFileEntry::Directive { directives } => EntryModel::Directives(
                directives_model(directives@),
            ),
            PatternFileEntry::Pattern { directives, pattern } => EntryModel::Pattern {
                directives: directives_model(directives@),
                negated: pattern.negated,
                glob: pattern.pattern@,
            },
        }
    }
}

pub open spec fn entries_model(es: Seq<PatternFileEntry>) -> Seq<EntryModel> {
    es.map_values(|e: PatternFileEntry| e@)
}

impl View for PatternFile {
    type V = Seq<EntryModel>;

    open spec fn view(&self) -> Seq<EntryModel> {
        entries_model(self.entries@)
    }
}

/// What `parse_input` yields for the text `s`.
pub open spec fn parse_input_model(s: Seq<char>) -> Result<Seq<EntryModel>, ErrorModel> {
    match parse_file(s) {
        Ok(es) => Ok(es),
        Err((line, offset)) => Err(ErrorModel::Parsing { line: line + 1, offset }),
    }
}

fn is_blank_char(c: char) -> (b: bool)
    ensures
        b == is_blank(c),
{
    c == ' ' || c == '\t'
}

fn is_key_char_exec(c: char) -> (b: bool)
    ensures
        b == is_key_char(c),
{
    ('a' <= c && c <= 'z') || ('A' <= c && c <= 'Z') || ('0' <= c && c <= '9') || c == '_' || c
        == '-'
}

fn skip_blanks_at(s: &Vec<char>, i: usize) -> (r: usize)
    requires
        i <= s.len(),
    ensures
        r == skip_blanks(s@, i as int),
        i <= r <= s.len(),
{
    let mut j: usize = i;
    while j < s.len() && is_blank_char(s[j])
        invariant
            i <= j <= s.len(),
            skip_blanks(s@, j as int) == skip_blanks(s@, i as int),
        decreases s.len() - j,
    {
        j += 1;
    }
    j
}

fn key_end_at(s: &Vec<char>, i: usize) -> (r: usize)
    requires
        i <= s.len(),
    ensures
        r == key_end(s@, i as int),
        i <= r <= s.len(),
{
    let mut j: usize = i;
    while j < s.len() && is_key_char_exec(s[j])
        invariant
            i <= j <= s.len(),
            key_end(s@, j as int) == key_end(s@, i as int),
        decreases s.len() - j,
    {
        j += 1;
    }
    j
}

fn bare_end_at(s: &Vec<char>, i: usize) -> (r: usize)
    requires
        i <= s.len(),
    ensures
        r == bare_end(s@, i as int),
        i <= r <= s.len(),
{
    let mut j: usize = i;
    while j < s.len() && !is_blank_char(s[j]) && s[j] != '"'
        invariant
            i <= j <= s.len(),
            bare_end(s@, j as int) == bare_end(s@, i as int),
        decreases s.len() - j,
    {
        j += 1;
    }
    j
}

fn quoted_close_at(s: &Vec<char>, i: usize) -> (r: Option<usize>)
    requires
        i <= s.len(),
    ensures
        match quoted_close(s@, i as int) {
            Some(c) => r == Some(c as usize),
            None => r is None,
        },
{
    let mut j: usize = i;
    loop
        invariant
            i <= j <= s.len(),
            quoted_close(s@, j as int) == quoted_close(s@, i as int),
        decreases s.len() - j,
    {
        if j >= s.len() {
            return None;
        }
        if s[j] == '"' {
            return Some(j);
        }
        if s[j] == '\\' {
            if j + 1 >= s.len() {
                return None;
            }
            j += 2;
        } else {
            j += 1;
        }
    }
}

/// The unescaped content of `s[a..b]`.
fn unescape_range(s: &Vec<char>, a: usize, b: usize) -> (r: String)
    requires
        a <= b <= s.len(),
        escapes_complete(s@.subrange(a as int, b as int)),
    ensures
        r@ == unescape(s@.subrange(a as int, b as int)),
{
    let mut out = String::new();
    let mut j: usize = a;
    while j < b
        invariant
            a <= j <= b <= s.len(),
            escapes_complete(s@.subrange(j as int, b as int)),
            unescape(s@.subrange(a as int, b as int)) == out@ + unescape(
                s@.subrange(j as int, b as int),
            ),
        decreases b - j,
    {
        let ghost t = s@.subrange(j as int, b as int);
        let ghost before = out@;
        if s[j] == '\\' {
            assert(t.skip(2) =~= s@.subrange(j + 2, b as int));
            push_char(&mut out, s[j + 1]);
            j += 2;
            assert(before + unescape(t) =~= out@ + unescape(s@.subrange(j as int, b as int)));
        } else {
            assert(t.skip(1) =~= s@.subrange(j + 1, b as int));
            push_char(&mut out, s[j]);
            j += 1;
            assert(before + unescape(t) =~= out@ + unescape(s@.subrange(j as int, b as int)));
        }
    }
    assert(s@.subrange(b as int, b as int) =~= Seq::<char>::empty());
    assert(out@ + unescape(Seq::<char>::empty()) =~= out@);
    out
}

impl StringLiteral {
    /// The content of a quoted value: `value` without its surrounding quotes,
    /// each backslash escape replaced by the escaped character.
    pub fn unescape_quoted_value(value: &str) -> (r: String)
        requires
            value@.len() >= 2,
            value@[0] == '"',
            value@.last() == '"',
            escapes_complete(value@.subrange(1, value@.len() - 1)),
        ensures
            r@ == unescape(value@.subrange(1, value@.len() - 1)),
    {
        let v = chars_of(value);
        unescape_range(&v, 1, v.len() - 1)
    }

    /// The directive value that starts at `s[i]`, and the index after it; or
    /// the index at which the value is malformed.
    pub fn parse_at(s: &Vec<char>, i: usize) -> (r: Result<(StringLiteral, usize), usize>)
        requires
            i <= s.len(),
        ensures
            match parse_value(s@, i as int) {
                Ok((v, e)) => r matches Ok((lit, f)) && lit.value@ == v && f == e,
                Err(p) => r matches Err(q) && q as int == p,
            },
            r matches Err(p) ==> p <= s.len(),
    {
        if i >= s.len() {
            return Err(i);
        }
        if s[i] == '"' {
            proof {
                lemma_quoted_close(s@, i + 1);
            }
            match quoted_close_at(s, i + 1) {
                Some(c) => {
                    let value = unescape_range(s, i + 1, c);
                    Ok((StringLiteral { value }, c + 1))
                },
                None => Err(s.len()),
            }
        } else {
            let e: usize = bare_end_at(s, i);
            if e == i {
                Err(i)
            } else {
                Ok((StringLiteral { value: string_of(s, i, e) }, e))
            }
        }
    }
}

impl Directive {
    /// The directive whose `@` stands at `s[i]`, and the index after it; or
    /// the index at which it is malformed.
    pub fn parse_at(s: &Vec<char>, i: usize) -> (r: Result<(Directive, usize), usize>)
        requires
            i < s.len(),
        ensures
            match parse_directive(s@, i as int) {
                Ok((d, e)) => r matches Ok((x, f)) && x@ == d && f == e,
                Err(p) => r matches Err(q) && q as int == p,
            },
            r matches Err(p) ==> p <= s.len(),
    {
        let k: usize = key_end_at(s, i + 1);
        if k == i + 1 {
            return Err(i + 1);
        }
        if k >= s.len() || s[k] != ':' {
            return Err(k);
        }
        match StringLiteral::parse_at(s, k + 1) {
            Err(p) => Err(p),
            Ok((lit, e)) => Ok((Directive { key: string_of(s, i + 1, k), value: lit.value }, e)),
        }
    }
}

impl GlobPattern {
    /// The pattern that makes up the rest of `s` from index `i`, where `s[i]`
    /// is not `@`; or the index at which it is malformed.
    pub fn parse_at(s: &Vec<char>, i: usize) -> (r: Result<GlobPattern, usize>)
        requires
            i < s.len(),
        ensures
            s@[i as int] == '!' ==> (if i + 1 >= s.len() {
                r == Err::<GlobPattern, usize>((i + 1) as usize)
            } else {
                r matches Ok(g) && g.negated && g.pattern@ == s@.subrange(
                    i + 1,
                    s.len() as int,
                )
            }),
            s@[i as int] != '!' ==> (r matches Ok(g) && !g.negated && g.pattern@ == s@.subrange(
                i as int,
                s.len() as int,
            )),
            r matches Err(p) ==> p <= s.len(),
    {
        if s[i] == '!' {
            if i + 1 >= s.len() {
                Err(i + 1)
            } else {
                Ok(GlobPattern { negated: true, pattern: string_of(s, i + 1, s.len()) })
            }
        } else {
            Ok(GlobPattern { negated: false, pattern: string_of(s, i, s.len()) })
        }
    }
}

impl PatternFileEntry {
    /// The directives and the pattern of the trimmed line `s`, from index
    /// `start` on; or the index at which the line is malformed.
    fn parse_items_at(s: &Vec<char>, start: usize) -> (r: Result<PatternFileEntry, usize>)
        requires
            start <= s.len(),
        ensures
            match parse_items(s@, start as int, seq![]) {
                Ok(e) => r matches Ok(x) && x@ == e,
                Err(p) => r matches Err(q) && q as int == p,
            },
            r matches Err(p) ==> p <= s.len(),
    {
        let mut dirs: Vec<Directive> = Vec::new();
        let mut i: usize = start;
        assert(directives_model(dirs@) =~= Seq::<DirectiveModel>::empty());
        loop
            invariant
                i <= s.len(),
                parse_items(s@, i as int, directives_model(dirs@)) == parse_items(
                    s@,
                    start as int,
                    seq![],
                ),
            decreases s.len() - i,
        {
            if i >= s.len() {
                return Ok(PatternFileEntry::Directive { directives: dirs });
            }
            if s[i] == '@' {
                proof {
                    lemma_directive_advances(s@, i as int);
                }
                match Directive::parse_at(s, i) {
                    Err(p) => {
                        return Err(p);
                    },
                    Ok((d, e)) => {
                        let ghost before = directives_model(dirs@);
                        dirs.push(d);
                        assert(directives_model(dirs@) =~= before.push(d@));
                        if e >= s.len() {
                            return Ok(PatternFileEntry::Directive { directives: dirs });
                        }
                        if !is_blank_char(s[e]) {
                            return Err(e);
                        }
                        let n: usize = skip_blanks_at(s, e);
                        if n >= s.len() {
                            return Ok(PatternFileEntry::Directive { directives: dirs });
                        }
                        i = n;
                    },
                }
            } else {
                match GlobPattern::parse_at(s, i) {
                    Err(p) => {
                        return Err(p);
                    },
                    Ok(pattern) => {
                        return Ok(PatternFileEntry::Pattern { directives: dirs, pattern });
                    },
                }
            }
        }
    }

    /// One line of a file (without its `'\n'`): what it holds, or the index at
    /// which it is malformed.
    pub fn parse_line(line: &Vec<char>) -> (r: Result<PatternFileEntry, usize>)
        ensures
            match parse_line(line@) {
                Ok(e) => r matches Ok(x) && x@ == e,
                Err(p) => r matches Err(q) && q as int == p,
            },
            r matches Err(p) ==> p <= line.len(),
    {
        let mut n: usize = line.len();
        if n > 0 && line[n - 1] == '\r' {
            n = n - 1;
        }
        let ghost c = without_cr(line@);
        assert(c =~= line@.subrange(0, n as int));
        let mut m: usize = n;
        while m > 0 && is_blank_char(line[m - 1]) && !(m >= 2 && line[m - 2] == '\\')
            invariant
                m <= n <= line.len(),
                c == line@.subrange(0, n as int),
                trimmed_len(c, m as int) == trimmed_len(c, n as int),
            decreases m,
        {
            m = m - 1;
        }
        let t = subvec(line, 0, m);
        assert(t@ =~= trim_line(line@));
        let p: usize = skip_blanks_at(&t, 0);
        if p >= t.len() {
            Ok(PatternFileEntry::Blank {  })
        } else if t[p] == '#' {
            Ok(PatternFileEntry::Comment {  })
        } else {
            Self::parse_items_at(&t, p)
        }
    }
}

/// Parses pathfilter text into its entries, one per line.
pub fn parse_input(value: &str) -> (r: Result<PatternFile, Error>)
    ensures
        match parse_input_model(value@) {
            Ok(es) => r matches Ok(f) && f@ == es,
            Err(e) => r matches Err(x) && x@ == e,
        },
{
    let chars = chars_of(value);
    let n: usize = chars.len();
    let mut entries: Vec<PatternFileEntry> = Vec::new();
    let mut start: usize = 0;
    let mut line_no: usize = 0;
    let ghost mut done: Seq<Seq<char>> = seq![];
    assert(entries_model(entries@) =~= Seq::<EntryModel>::empty());
    while start < n
        invariant
            chars@ == value@,
            n == chars.len(),
            start <= n,
            done.len() <= start,
            line_no == done.len(),
            file_lines(chars@) == done + lines_from(chars@, start as int),
            parse_lines(done) == Ok::<Seq<EntryModel>, (int, int)>(entries_model(entries@)),
        decreases n - start,
    {
        let mut end: usize = start;
        while end < n && chars[end] != '\n'
            invariant
                start <= end <= n,
                n == chars.len(),
                line_end(chars@, end as int) == line_end(chars@, start as int),
            decreases n - end,
        {
            end += 1;
        }
        let line = subvec(&chars, start, end);
        let ghost rest = lines_from(chars@, start as int);
        let ghost next_start: int = if end < n { end + 1 } else { n as int };
        assert(rest == seq![line@] + lines_from(chars@, next_start));
        assert(done + rest =~= done.push(line@) + lines_from(chars@, next_start));
        assert(done.push(line@).drop_last() =~= done);
        match PatternFileEntry::parse_line(&line) {
            Ok(e) => {
                let ghost before = entries_model(entries@);
                entries.push(e);
                assert(entries_model(entries@) =~= before.push(e@));
            },
            Err(col) => {
                proof {
                    assert(done.push(line@).last() == line@);
                    assert(parse_line(line@) == Err::<EntryModel, int>(col as int));
                    assert(parse_lines(done.push(line@)) == Err::<Seq<EntryModel>, (int, int)>(
                        (done.len() as int, col as int),
                    ));
                    assert(file_lines(chars@) == done.push(line@) + lines_from(chars@, next_start));
                    lemma_parse_lines_error_stays(
                        done.push(line@),
                        lines_from(chars@, next_start),
                    );
                }
                return Err(Error::Parsing { line: line_no + 1, offset: col });
            },
        }
        proof {
            done = done.push(line@);
        }
        line_no = line_no + 1;
        start = if end < n {
            end + 1
        } else {
            n
        };
    }
    assert(lines_from(chars@, start as int) =~= Seq::<Seq<char>>::empty());
    assert(done =~= file_lines(chars@));
    Ok(PatternFile { entries })
}

} // verus!
