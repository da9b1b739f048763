//! What a pathfilter means: the rules its lines define, and which rule
//! decides a path.
use vstd::prelude::*;

use crate::error::ErrorModel;
use crate::grammar::{DirectiveModel, EntryModel};
use crate::number::parse_u32;
use crate::parser::parse_input_model;
use crate::pattern::{glob_matches_with, glob_syntax_error, has_no_wildcards};

verus! {

/// One rule: a glob pattern with the place (`order`) at which it was
/// defined, its priority, whether it includes (`negated`) or excludes, and
/// whether it also covers everything below a directory (`recursive`).
pub struct RuleModel {
    pub order: int,
    pub priority: u32,
    pub negated: bool,
    pub recursive: bool,
    pub text: Seq<char>,
}

// ---------------------------------------------------------------------------
// Building the rules of a file
/// The priority a pattern has without a `priority` directive: the length of
/// its text in UTF-8 bytes.
pub open spec fn default_priority(glob: Seq<char>) -> u32 {
    (vstd::utf8::encode_utf8(glob).len() as usize) as u32
}

/// The priority that the directives `dirs` give a pattern whose priority is
/// `p` so far; directives are read left to right.
pub open spec fn pattern_priority(dirs: Seq<DirectiveModel>, p: u32) -> Result<u32, ErrorModel>
    decreases dirs.len(),
{
    if dirs.len() == 0 {
        Ok(p)
    } else {
        let d = dirs[0];
        if d.key == "priority"@ {
            match parse_u32(d.value) {
                Ok(n) => pattern_priority(dirs.skip(1), n),
                Err(k) => Err(ErrorModel::DirectiveValueInvalid(d.key, k)),
            }
        } else {
            Err(ErrorModel::DirectiveUnknown(d.key))
        }
    }
}

/// Adds a rule after the rules `rs`, if `glob` accepts its pattern.
pub open spec fn push_rule(
    rs: Seq<RuleModel>,
    priority: u32,
    negated: bool,
    recursive: bool,
    text: Seq<char>,
) -> Result<Seq<RuleModel>, ErrorModel> {
    match glob_syntax_error(text) {
        Some((position, message)) => Err(
            ErrorModel::Pattern { pattern: text, position: position as int, message },
        ),
        None => Ok(
            rs.push(
                RuleModel { order: rs.len() as int, priority, negated, recursive, text },
            ),
        ),
    }
}

pub open spec fn strip_leading_slashes(s: Seq<char>) -> Seq<char>
    decreases s.len(),
{
    if s.len() > 0 && s[0] == '/' {
        strip_leading_slashes(s.skip(1))
    } else {
        s
    }
}

pub open spec fn strip_trailing_slashes(s: Seq<char>) -> Seq<char>
    decreases s.len(),
{
    if s.len() > 0 && s.last() == '/' {
        strip_trailing_slashes(s.drop_last())
    } else {
        s
    }
}

/// Index of the first `/` at or after `i`, or the length of `s`.
pub open spec fn slash_end(s: Seq<char>, i: int) -> int
    decreases s.len() - i,
{
    if i >= s.len() {
        s.len() as int
    } else if s[i] == '/' {
        i
    } else {
        slash_end(s, i + 1)
    }
}

pub proof fn lemma_slash_end_bounds(s: Seq<char>, i: int)
    requires
        i <= s.len(),
    ensures
        i <= slash_end(s, i) <= s.len(),
    decreases s.len() - i,
{
    if i < s.len() && s[i] != '/' {
        lemma_slash_end_bounds(s, i + 1);
    }
}

/// The pieces of `s` between the `/` at or after `start`.
pub open spec fn split_from(s: Seq<char>, start: int) -> Seq<Seq<char>>
    decreases s.len() - start,
{
    if start < 0 || start > s.len() {
        seq![]
    } else {
        let e: int = slash_end(s, start);
        proof {
            lemma_slash_end_bounds(s, start);
        }
        if e >= s.len() {
            seq![s.subrange(start, s.len() as int)]
        } else {
            seq![s.subrange(start, e)] + split_from(s, e + 1)
        }
    }
}

/// The path components of a pattern: the pieces between `/` once leading and
/// trailing `/` are gone.
pub open spec fn path_parts(glob: Seq<char>) -> Seq<Seq<char>> {
    let t = strip_trailing_slashes(strip_leading_slashes(glob));
    if t.len() == 0 {
        seq![]
    } else {
        split_from(t, 0)
    }
}

pub open spec fn has_recursive_part(parts: Seq<Seq<char>>) -> bool {
    exists|k: int| 0 <= k < parts.len() && parts[k] == seq!['*', '*']
}

/// Include rules for the parent directories `cur`, `cur + parts[0] + "/"`,
/// ... of a negated pattern, all but the last component.
pub open spec fn push_parents(
    rs: Seq<RuleModel>,
    priority: u32,
    parts: Seq<Seq<char>>,
    cur: Seq<char>,
) -> Result<Seq<RuleModel>, ErrorModel>
    decreases parts.len(),
{
    if parts.len() <= 1 {
        Ok(rs)
    } else {
        let next = cur + parts[0] + seq!['/'];
        match push_rule(rs, priority, true, false, next) {
            Err(e) => Err(e),
            Ok(r2) => push_parents(r2, priority, parts.skip(1), next),
        }
    }
}

/// The rules that one pattern line adds after `rs`.
///
/// An exclude pattern is one rule. An include (negated) pattern must start
/// with `/` and must not have a `**` component; it adds an include rule for
/// `/`, one for each parent directory, and one for the pattern itself, which
/// also covers what lies below it when it ends with `/`.
pub open spec fn pattern_rules(
    rs: Seq<RuleModel>,
    priority: u32,
    negated: bool,
    glob: Seq<char>,
) -> Result<Seq<RuleModel>, ErrorModel> {
    if !negated {
        push_rule(rs, priority, false, false, glob)
    } else if !(glob.len() > 0 && glob[0] == '/') {
        Err(ErrorModel::PatternNegatedMustBeAbsolute)
    } else if has_recursive_part(path_parts(glob)) {
        Err(ErrorModel::PatternNegatedNoArbitrarySubdirectories)
    } else {
        match push_rule(rs, priority, true, false, seq!['/']) {
            Err(e) => Err(e),
            Ok(r1) => match push_parents(r1, priority, path_parts(glob), seq!['/']) {
                Err(e) => Err(e),
                Ok(r2) => push_rule(r2, priority, true, glob.last() == '/', glob),
            },
        }
    }
}

/// The rules after `rs` once the entry `e` is read.
pub open spec fn entry_rules(rs: Seq<RuleModel>, e: EntryModel) -> Result<
    Seq<RuleModel>,
    ErrorModel,
> {
    match e {
        EntryModel::Blank => Ok(rs),
        EntryModel::Comment => Ok(rs),
        EntryModel::Directives(_) => Err(ErrorModel::DirectiveGlobalUnsupported),
        EntryModel::Pattern { directives, negated, glob } => match pattern_priority(
            directives,
            default_priority(glob),
        ) {
            Err(x) => Err(x),
            Ok(p) => pattern_rules(rs, p, negated, glob),
        },
    }
}

/// The rules of a list of entries, in the order they are defined, or the
/// first error.
pub open spec fn build_rules(es: Seq<EntryModel>) -> Result<Seq<RuleModel>, ErrorModel>
    decreases es.len(),
{
    if es.len() == 0 {
        Ok(seq![])
    } else {
        match build_rules(es.drop_last()) {
            Err(e) => Err(e),
            Ok(rs) => entry_rules(rs, es.last()),
        }
    }
}

/// The rules of pathfilter text, in the order they are defined, or the
/// first error.
pub open spec fn filter_rules(s: Seq<char>) -> Result<Seq<RuleModel>, ErrorModel> {
    match parse_input_model(s) {
        Err(e) => Err(e),
        Ok(es) => build_rules(es),
    }
}

// ---------------------------------------------------------------------------
// Deciding a path
/// Whether the glob `t` matches the whole of `q`, case sensitively, with
/// `*`, `?` and `[...]` never matching `/` (only `**` crosses directories).
pub open spec fn glob_at(t: Seq<char>, q: Seq<char>) -> bool {
    glob_matches_with(t, q, true, true, false)
}

/// A pattern with a leading `/` is matched from the filter root.
pub open spec fn is_anchored(t: Seq<char>) -> bool {
    t.len() > 0 && t[0] == '/'
}

/// Index `k` of `q` starts a path component: it is the start of `q` or
/// follows a `/`.
pub open spec fn starts_component(q: Seq<char>, k: int) -> bool {
    k == 0 || q[k - 1] == '/'
}

/// Whether the pattern `t` matches the path `q`: an anchored pattern matches
/// the whole path; any other pattern matches the path from the start of one
/// of its components on, so at any depth.
pub open spec fn pattern_matches(t: Seq<char>, q: Seq<char>) -> bool {
    if is_anchored(t) {
        glob_at(t, q)
    } else {
        exists|k: int| 0 <= k <= q.len() && starts_component(q, k) && #[trigger] glob_at(t, q.skip(k))
    }
}

/// The `/` at index `k` of `p` ends a directory that contains the rest of
/// `p`, and the pattern `t` matches that directory, written without or with
/// its trailing `/`.
pub open spec fn matches_dir_at(t: Seq<char>, p: Seq<char>, k: int) -> bool {
    &&& 0 < k < p.len()
    &&& p[k] == '/'
    &&& (pattern_matches(t, p.subrange(0, k)) || pattern_matches(t, p.subrange(0, k + 1)))
}

/// Whether the pattern `t` matches a directory that contains `p`.
pub open spec fn matches_enclosing_dir(t: Seq<char>, p: Seq<char>) -> bool {
    exists|k: int| #[trigger] matches_dir_at(t, p, k)
}

/// Whether a rule applies to `path`, given whether its pattern matches
/// `path` (`direct`), `path` without its trailing `/` (`via_parent`, false
/// when `path` has none), and a directory that contains `path` (`within`).
///
/// An exclude rule also applies to everything inside a directory it
/// matches. An include rule also applies to a directory path whose name it
/// matches, and a recursive include rule to every path below its directory.
pub open spec fn applies(
    r: RuleModel,
    path: Seq<char>,
    direct: bool,
    via_parent: bool,
    within: bool,
) -> bool {
    ||| direct
    ||| !r.negated && within
    ||| r.negated && (via_parent || (r.recursive && r.text.len() > 0 && r.text.last() == '/'
        && r.text.is_prefix_of(path)))
}

pub open spec fn ends_with_slash(path: Seq<char>) -> bool {
    path.len() > 0 && path.last() == '/'
}

/// `r` is an anchored rule without wildcards whose text is `path` itself,
/// as the include rules that a negated line adds for the directories above
/// its pattern are.
pub open spec fn names_path(r: RuleModel, path: Seq<char>) -> bool {
    is_anchored(r.text) && has_no_wildcards(r.text) && r.text == path
}

/// Whether the rule `r` applies to `path`.
pub open spec fn rule_matches(r: RuleModel, path: Seq<char>) -> bool {
    applies(
        r,
        path,
        pattern_matches(r.text, path),
        ends_with_slash(path) && pattern_matches(r.text, path.drop_last()),
        matches_enclosing_dir(r.text, path),
    )
}

/// `a` takes precedence over `b`: a higher priority, or the same priority
/// and defined no earlier.
pub open spec fn outranks(a: RuleModel, b: RuleModel) -> bool {
    a.priority > b.priority || (a.priority == b.priority && a.order >= b.order)
}

/// `rules[i]` applies to `path` and outranks every rule that applies.
pub open spec fn decides(rules: Seq<RuleModel>, path: Seq<char>, i: int) -> bool {
    &&& 0 <= i < rules.len()
    &&& rule_matches(rules[i], path)
    &&& forall|j: int|
        0 <= j < rules.len() && #[trigger] rule_matches(rules[j], path) ==> outranks(
            rules[i],
            rules[j],
        )
}

/// Whether `path` is excluded: the rule that decides it is an exclude rule.
/// A path that no rule applies to is included.
pub open spec fn excluded(rules: Seq<RuleModel>, path: Seq<char>) -> bool {
    exists|i: int| decides(rules, path, i) && !rules[i].negated
}

/// `a` and `b` hold the same rules.
pub open spec fn same_rules(a: Seq<RuleModel>, b: Seq<RuleModel>) -> bool {
    &&& a.len() == b.len()
    &&& forall|i: int| 0 <= i < a.len() ==> b.contains(#[trigger] a[i])
    &&& forall|i: int| 0 <= i < b.len() ==> a.contains(#[trigger] b[i])
}

/// Strictly before in evaluation order: higher priority, or the same
/// priority and defined later.
pub open spec fn ranks_before(a: RuleModel, b: RuleModel) -> bool {
    a.priority > b.priority || (a.priority == b.priority && a.order > b.order)
}

/// The rules stand in evaluation order.
pub open spec fn in_evaluation_order(rules: Seq<RuleModel>) -> bool {
    forall|i: int, j: int| 0 <= i < j < rules.len() ==> ranks_before(rules[i], rules[j])
}

proof fn lemma_excluded_carries_over(x: Seq<RuleModel>, y: Seq<RuleModel>, path: Seq<char>)
    requires
        same_rules(x, y),
        excluded(x, path),
    ensures
        excluded(y, path),
{
    let i = choose|i: int| decides(x, path, i) && !x[i].negated;
    assert(y.contains(x[i]));
    let k = choose|k: int| 0 <= k < y.len() && y[k] == x[i];
    assert forall|j: int| 0 <= j < y.len() && #[trigger] rule_matches(y[j], path) implies outranks(
        y[k],
        y[j],
    ) by {
        assert(x.contains(y[j]));
        let m = choose|m: int| 0 <= m < x.len() && x[m] == y[j];
        assert(rule_matches(x[m], path));
    }
    assert(decides(y, path, k));
}

/// The same rules decide paths the same way, whatever their order.
pub proof fn lemma_same_rules_same_decision(a: Seq<RuleModel>, b: Seq<RuleModel>, path: Seq<char>)
    requires
        same_rules(a, b),
    ensures
        excluded(a, path) == excluded(b, path),
{
    if excluded(a, path) {
        lemma_excluded_carries_over(a, b, path);
    }
    if excluded(b, path) {
        lemma_excluded_carries_over(b, a, path);
    }
}

// ---------------------------------------------------------------------------
// Facts about building rules.
/// Each rule's `order` is its index: rules are numbered as they are defined.
pub open spec fn numbered(rs: Seq<RuleModel>) -> bool {
    forall|k: int| 0 <= k < rs.len() ==> #[trigger] rs[k].order == k
}

pub proof fn lemma_push_rule_numbered(
    rs: Seq<RuleModel>,
    priority: u32,
    negated: bool,
    recursive: bool,
    text: Seq<char>,
)
    requires
        numbered(rs),
    ensures
        push_rule(rs, priority, negated, recursive, text) matches Ok(r2) ==> numbered(r2),
{
}

pub proof fn lemma_push_parents_numbered(
    rs: Seq<RuleModel>,
    priority: u32,
    parts: Seq<Seq<char>>,
    cur: Seq<char>,
)
    requires
        numbered(rs),
    ensures
        push_parents(rs, priority, parts, cur) matches Ok(r2) ==> numbered(r2),
    decreases parts.len(),
{
    if parts.len() > 1 {
        let next = cur + parts[0] + seq!['/'];
        lemma_push_rule_numbered(rs, priority, true, false, next);
        if let Ok(r2) = push_rule(rs, priority, true, false, next) {
            lemma_push_parents_numbered(r2, priority, parts.skip(1), next);
        }
    }
}

pub proof fn lemma_entry_rules_numbered(rs: Seq<RuleModel>, e: EntryModel)
    requires
        numbered(rs),
    ensures
        entry_rules(rs, e) matches Ok(r2) ==> numbered(r2),
{
    if let EntryModel::Pattern { directives, negated, glob } = e {
        if let Ok(p) = pattern_priority(directives, default_priority(glob)) {
            lemma_push_rule_numbered(rs, p, false, false, glob);
            lemma_push_rule_numbered(rs, p, true, false, seq!['/']);
            if let Ok(r1) = push_rule(rs, p, true, false, seq!['/']) {
                lemma_push_parents_numbered(r1, p, path_parts(glob), seq!['/']);
                if let Ok(r2) = push_parents(r1, p, path_parts(glob), seq!['/']) {
                    lemma_push_rule_numbered(r2, p, true, glob.last() == '/', glob);
                }
            }
        }
    }
}

/// The rules of a file are numbered in the order they are defined.
pub proof fn lemma_build_rules_numbered(es: Seq<EntryModel>)
    ensures
        build_rules(es) matches Ok(rs) ==> numbered(rs),
    decreases es.len(),
{
    if es.len() > 0 {
        lemma_build_rules_numbered(es.drop_last());
        if let Ok(rs) = build_rules(es.drop_last()) {
            lemma_entry_rules_numbered(rs, es.last());
        }
    }
}

/// Once an entry fails, the entries after it do not change the outcome.
pub proof fn lemma_build_rules_error_stays(es: Seq<EntryModel>, n: int)
    requires
        0 <= n <= es.len(),
        build_rules(es.take(n)) is Err,
    ensures
        build_rules(es) == build_rules(es.take(n)),
    decreases es.len() - n,
{
    if n == es.len() {
        assert(es.take(n) =~= es);
    } else {
        assert(es.take(n + 1).drop_last() =~= es.take(n));
        lemma_build_rules_error_stays(es, n + 1);
    }
}

} // verus!
