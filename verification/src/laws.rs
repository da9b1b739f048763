//! Properties of pathfilters that hold for every input.
use vstd::prelude::*;

use crate::error::ErrorModel;
use crate::grammar::{
    file_lines, lemma_lines_concat, lemma_lines_of_line, parse_file, parse_lines,
    parse_line, parse_directive, parse_items, key_end, bare_end, is_blank, is_key_char,
    skip_blanks, trim_line, trimmed_len, unescape, escapes_complete, without_cr,
    DirectiveModel, EntryModel,
};
use crate::number::{accumulate_digits, digit_value, is_digit, parse_u32, IntErrorKind};
use crate::pattern::{glob_matches_with, has_no_wildcards};
use crate::rules::{
    glob_at, is_anchored, matches_enclosing_dir, names_path, pattern_matches, starts_component,
    filter_rules,
    build_rules, decides, default_priority, entry_rules, excluded, numbered, outranks,
    pattern_priority, pattern_rules, push_parents, push_rule, rule_matches, same_rules,
    lemma_same_rules_same_decision, RuleModel,
};

verus! {

// ---------------------------------------------------------------------------
// Deciding a path
/// A path that no rule applies to is included.
pub proof fn law_unmatched_path_is_included(rules: Seq<RuleModel>, path: Seq<char>)
    requires
        forall|i: int| 0 <= i < rules.len() ==> !#[trigger] rule_matches(rules[i], path),
    ensures
        !excluded(rules, path),
{
}

/// The rule with the highest priority among those that apply decides a
/// path, and among rules of equal priority the one defined last: the path is
/// excluded exactly when that rule is not negated.
pub proof fn law_highest_priority_rule_decides(rules: Seq<RuleModel>, path: Seq<char>, i: int)
    requires
        numbered(rules),
        0 <= i < rules.len(),
        rule_matches(rules[i], path),
        forall|j: int|
            0 <= j < rules.len() && j != i && #[trigger] rule_matches(rules[j], path) ==> (
            rules[j].priority < rules[i].priority || (rules[j].priority == rules[i].priority && j
                < i)),
    ensures
        excluded(rules, path) == !rules[i].negated,
{
    assert forall|j: int| 0 <= j < rules.len() && #[trigger] rule_matches(rules[j], path) implies outranks(
        rules[i],
        rules[j],
    ) by {
        assert(rules[j].order == j && rules[i].order == i);
    }
    assert(decides(rules, path, i));
    if excluded(rules, path) {
        let k = choose|k: int| decides(rules, path, k) && !rules[k].negated;
        law_one_rule_decides(rules, path, i, k);
    }
}

/// At most one rule decides a path.
pub proof fn law_one_rule_decides(rules: Seq<RuleModel>, path: Seq<char>, i: int, k: int)
    requires
        numbered(rules),
        decides(rules, path, i),
        decides(rules, path, k),
    ensures
        i == k,
{
    assert(outranks(rules[i], rules[k]) && outranks(rules[k], rules[i]));
    assert(rules[i].order == i && rules[k].order == k);
}

/// Two filters with the same rules, in whatever order, decide every path the
/// same way.
pub proof fn law_decision_ignores_rule_order(a: Seq<RuleModel>, b: Seq<RuleModel>, path: Seq<char>)
    requires
        same_rules(a, b),
    ensures
        excluded(a, path) == excluded(b, path),
{
    lemma_same_rules_same_decision(a, b, path);
}

/// The fields of a rule other than where it was defined.
pub open spec fn same_but_order(x: RuleModel, y: RuleModel) -> bool {
    &&& x.priority == y.priority
    &&& x.negated == y.negated
    &&& x.recursive == y.recursive
    &&& x.text == y.text
}

/// `to_b` and `to_a` pair the rules of `a` and `b` one to one, paired rules
/// differ at most in where they were defined, and among rules of equal
/// priority the pairing keeps which was defined later.
pub open spec fn reordered(a: Seq<RuleModel>, b: Seq<RuleModel>, to_b: Seq<int>, to_a: Seq<int>) -> bool {
    &&& to_b.len() == a.len()
    &&& to_a.len() == b.len()
    &&& forall|i: int|
        0 <= i < a.len() ==> 0 <= #[trigger] to_b[i] < b.len() && to_a[to_b[i]] == i
            && same_but_order(a[i], b[to_b[i]])
    &&& forall|k: int| 0 <= k < b.len() ==> 0 <= #[trigger] to_a[k] < a.len() && to_b[to_a[k]] == k
    &&& forall|i: int, j: int|
        0 <= i < a.len() && 0 <= j < a.len() && a[i].priority == a[j].priority ==> (#[trigger] a[i].order
            >= #[trigger] a[j].order <==> b[to_b[i]].order >= b[to_b[j]].order)
}

proof fn lemma_reordered_swap(a: Seq<RuleModel>, b: Seq<RuleModel>, to_b: Seq<int>, to_a: Seq<int>)
    requires
        reordered(a, b, to_b, to_a),
    ensures
        reordered(b, a, to_a, to_b),
{
    assert forall|k: int| 0 <= k < b.len() implies same_but_order(b[k], a[#[trigger] to_a[k]]) by {
        assert(to_b[to_a[k]] == k);
    }
    assert forall|k: int, m: int|
        0 <= k < b.len() && 0 <= m < b.len() && b[k].priority == b[m].priority implies (
        #[trigger] b[k].order >= #[trigger] b[m].order <==> a[to_a[k]].order >= a[to_a[m]].order) by {
        let i = to_a[k];
        let j = to_a[m];
        assert(to_b[i] == k && to_b[j] == m);
        assert(same_but_order(a[i], b[k]) && same_but_order(a[j], b[m]));
        assert(a[i].order >= a[j].order <==> b[to_b[i]].order >= b[to_b[j]].order);
    }
}

proof fn lemma_reordered_excluded(
    a: Seq<RuleModel>,
    b: Seq<RuleModel>,
    to_b: Seq<int>,
    to_a: Seq<int>,
    path: Seq<char>,
)
    requires
        reordered(a, b, to_b, to_a),
        excluded(a, path),
    ensures
        excluded(b, path),
{
    let i = choose|i: int| decides(a, path, i) && !a[i].negated;
    let k = to_b[i];
    assert(same_but_order(a[i], b[k]));
    assert(rule_matches(b[k], path));
    assert forall|m: int| 0 <= m < b.len() && #[trigger] rule_matches(b[m], path) implies outranks(
        b[k],
        b[m],
    ) by {
        let j = to_a[m];
        assert(to_b[j] == m);
        assert(same_but_order(a[j], b[m]));
        assert(rule_matches(a[j], path));
        assert(outranks(a[i], a[j]));
        if a[i].priority == a[j].priority {
            assert(a[i].order >= a[j].order <==> b[to_b[i]].order >= b[to_b[j]].order);
        }
    }
    assert(decides(b, path, k));
}

/// The decision depends only on each rule's priority, kind and pattern, and
/// among rules of equal priority on which was defined later: rules put in
/// another order that keeps the latter decide every path the same way.
pub proof fn law_decision_depends_on_priority_then_definition_order(
    a: Seq<RuleModel>,
    b: Seq<RuleModel>,
    to_b: Seq<int>,
    to_a: Seq<int>,
    path: Seq<char>,
)
    requires
        reordered(a, b, to_b, to_a),
    ensures
        excluded(a, path) == excluded(b, path),
{
    lemma_reordered_swap(a, b, to_b, to_a);
    if excluded(a, path) {
        lemma_reordered_excluded(a, b, to_b, to_a, path);
    }
    if excluded(b, path) {
        lemma_reordered_excluded(b, a, to_a, to_b, path);
    }
}

/// An exclude rule applies to a path exactly when its pattern matches the
/// path or a directory that contains it: no prefix of the pattern's text is
/// matched and no trailing `/` is dropped but as a directory's.
pub proof fn law_exclude_rule_applies_to_match_or_contents(r: RuleModel, path: Seq<char>)
    requires
        !r.negated,
    ensures
        rule_matches(r, path) == (pattern_matches(r.text, path) || matches_enclosing_dir(
            r.text,
            path,
        )),
{
}

/// Excluding a directory excludes everything in it: an exclude rule whose
/// pattern matches a directory `d` applies to every path `d/...`.
pub proof fn law_excluded_directory_covers_contents(r: RuleModel, d: Seq<char>, rest: Seq<char>)
    requires
        !r.negated,
        d.len() > 0,
        pattern_matches(r.text, d),
    ensures
        rule_matches(r, d + seq!['/'] + rest),
{
    let p = d + seq!['/'] + rest;
    let k = d.len() as int;
    assert(p.subrange(0, k) =~= d);
    assert(p[k] == '/');
    assert(crate::rules::matches_dir_at(r.text, p, k));
}

/// A pattern with a leading `/` matches a path as a whole, from the filter
/// root.
pub proof fn law_anchored_pattern_matches_from_root(t: Seq<char>, q: Seq<char>)
    requires
        is_anchored(t),
    ensures
        pattern_matches(t, q) == glob_at(t, q),
{
}

/// A pattern without a leading `/` matches at any depth: when its glob
/// matches `c`, it matches `c` below any directory `a` (empty or ending with
/// `/`).
pub proof fn law_unanchored_pattern_matches_at_any_depth(t: Seq<char>, a: Seq<char>, c: Seq<char>)
    requires
        !is_anchored(t),
        a.len() == 0 || a.last() == '/',
        glob_at(t, c),
    ensures
        pattern_matches(t, a + c),
{
    let q = a + c;
    let k = a.len() as int;
    assert(q.skip(k) =~= c);
    assert(starts_component(q, k));
}

/// A pattern without a leading `/` matches only from the start of a path
/// component: whenever it matches `q`, its glob matches the whole of `q` or
/// the whole of what follows some `/` of `q`, never a piece of `q` that starts
/// inside a component's name (`build/` does not match `/rebuild/`).
pub proof fn law_unanchored_pattern_matches_only_from_component_starts(t: Seq<char>, q: Seq<char>)
    requires
        !is_anchored(t),
        pattern_matches(t, q),
    ensures
        exists|k: int| 0 <= k <= q.len() && (k == 0 || q[k - 1] == '/') && #[trigger] glob_at(t, q.skip(k)),
{
}

/// The library asks `glob` for a case-sensitive match in which `*`, `?` and
/// `[...]` never match `/`, and in which they do match a leading `.`: a name
/// that starts with `.` is matched like any other.
pub proof fn law_glob_match_options(t: Seq<char>, q: Seq<char>)
    ensures
        glob_at(t, q) == glob_matches_with(t, q, true, true, false),
{
}

/// An include rule whose pattern matches a path also applies to that path
/// written as a directory.
pub proof fn law_include_rule_applies_to_directory_form(r: RuleModel, q: Seq<char>)
    requires
        r.negated,
        pattern_matches(r.text, q),
    ensures
        rule_matches(r, q),
        rule_matches(r, q.push('/')),
{
    assert(q.push('/').drop_last() =~= q);
}

/// An include rule that applies to a path keeps it included when every
/// exclude rule has a lower priority.
pub proof fn law_include_above_all_excludes_keeps_included(
    rules: Seq<RuleModel>,
    path: Seq<char>,
    i: int,
)
    requires
        0 <= i < rules.len(),
        rules[i].negated,
        rule_matches(rules[i], path),
        forall|j: int|
            0 <= j < rules.len() && !#[trigger] rules[j].negated ==> rules[j].priority
                < rules[i].priority,
    ensures
        !excluded(rules, path),
{
    if excluded(rules, path) {
        let k = choose|k: int| decides(rules, path, k) && !rules[k].negated;
        assert(outranks(rules[k], rules[i]));
    }
}

/// A rule for a negated directory pattern (ending in `/`) whose priority is
/// above every exclude rule keeps the directory and everything below it
/// included.
pub proof fn law_include_directory_above_all_excludes(rules: Seq<RuleModel>, path: Seq<char>, i: int)
    requires
        0 <= i < rules.len(),
        rules[i].negated,
        rules[i].recursive,
        rules[i].text.len() > 0,
        rules[i].text.last() == '/',
        rules[i].text.is_prefix_of(path),
        forall|j: int|
            0 <= j < rules.len() && !#[trigger] rules[j].negated ==> rules[j].priority
                < rules[i].priority,
    ensures
        !excluded(rules, path),
{
    law_include_above_all_excludes_keeps_included(rules, path, i);
}

// ---------------------------------------------------------------------------
// Priorities
/// Explicit priorities always override the derived one: with one or more
/// `priority` directives, all valid, a pattern has the value of the last.
pub proof fn law_explicit_priority_overrides_derived(dirs: Seq<DirectiveModel>, p: u32)
    requires
        dirs.len() > 0,
        forall|k: int| 0 <= k < dirs.len() ==> #[trigger] dirs[k].key == "priority"@,
        forall|k: int| 0 <= k < dirs.len() ==> #[trigger] parse_u32(dirs[k].value) is Ok,
    ensures
        pattern_priority(dirs, p) == Ok::<u32, ErrorModel>(parse_u32(dirs.last().value)->Ok_0),
    decreases dirs.len(),
{
    assert(dirs[0].key == "priority"@);
    assert(parse_u32(dirs[0].value) is Ok);
    let n: u32 = parse_u32(dirs[0].value)->Ok_0;
    assert(pattern_priority(dirs, p) == pattern_priority(dirs.skip(1), n));
    if dirs.len() == 1 {
        assert(dirs.skip(1).len() == 0);
        assert(dirs.last() == dirs[0]);
    } else {
        let rest = dirs.skip(1);
        assert forall|k: int| 0 <= k < rest.len() implies #[trigger] rest[k].key == "priority"@ by {
            assert(rest[k] == dirs[k + 1]);
        }
        assert forall|k: int| 0 <= k < rest.len() implies #[trigger] parse_u32(rest[k].value) is Ok by {
            assert(rest[k] == dirs[k + 1]);
        }
        law_explicit_priority_overrides_derived(rest, n);
        assert(rest.last() == dirs.last());
    }
}

/// The decimal digits of `n`, most significant first, without leading zeros.
pub open spec fn decimal(n: nat) -> Seq<char>
    decreases n,
{
    let digits = seq!['0', '1', '2', '3', '4', '5', '6', '7', '8', '9'];
    if n < 10 {
        seq![digits[n as int]]
    } else {
        decimal(n / 10).push(digits[(n % 10) as int])
    }
}

proof fn lemma_accumulate_push(d: Seq<char>, c: char, acc: int)
    requires
        0 <= acc <= u32::MAX,
    ensures
        accumulate_digits(d.push(c), acc) == match accumulate_digits(d, acc) {
            Err(e) => Err(e),
            Ok(x) => if !is_digit(c) {
                Err(IntErrorKind::InvalidDigit)
            } else if x * 10 + digit_value(c) > u32::MAX {
                Err(IntErrorKind::PosOverflow)
            } else {
                Ok((x * 10 + digit_value(c)) as u32)
            },
        },
    decreases d.len(),
{
    if d.len() == 0 {
        let e = Seq::<char>::empty();
        assert(d =~= e);
        assert(d.push(c).skip(1) =~= e);
        assert(d.push(c)[0] == c);
        assert(accumulate_digits(d, acc) == Ok::<u32, IntErrorKind>(acc as u32));
        if is_digit(c) {
            let n: int = acc * 10 + digit_value(c);
            if n <= u32::MAX {
                assert(accumulate_digits(e, n) == Ok::<u32, IntErrorKind>(n as u32));
            }
        }
    } else {
        assert(d.push(c)[0] == d[0]);
        assert(d.push(c).skip(1) =~= d.skip(1).push(c));
        if is_digit(d[0]) {
            let n: int = acc * 10 + digit_value(d[0]);
            if n <= u32::MAX {
                lemma_accumulate_push(d.skip(1), c, n);
            }
        }
    }
}

proof fn lemma_accumulate_decimal(n: nat)
    ensures
        decimal(n).len() > 0,
        is_digit(decimal(n)[0]),
        n <= u32::MAX ==> accumulate_digits(decimal(n), 0) == Ok::<u32, IntErrorKind>(n as u32),
        n > u32::MAX ==> accumulate_digits(decimal(n), 0) == Err::<u32, IntErrorKind>(
            IntErrorKind::PosOverflow,
        ),
    decreases n,
{
    let digits = seq!['0', '1', '2', '3', '4', '5', '6', '7', '8', '9'];
    assert forall|k: int| 0 <= k < 10 implies is_digit(#[trigger] digits[k]) && digit_value(digits[k]) == k by {
        assert(digits[0] == '0' && digits[1] == '1' && digits[2] == '2' && digits[3] == '3');
        assert(digits[4] == '4' && digits[5] == '5' && digits[6] == '6' && digits[7] == '7');
        assert(digits[8] == '8' && digits[9] == '9');
    }
    if n < 10 {
        let d = seq![digits[n as int]];
        assert(d.skip(1) =~= Seq::<char>::empty());
        assert(digit_value(digits[n as int]) == n);
        assert(decimal(n) == d);
        assert(accumulate_digits(d.skip(1), n as int) == Ok::<u32, IntErrorKind>(n as u32));
        assert(accumulate_digits(d, 0) == accumulate_digits(d.skip(1), 0 * 10 + digit_value(d[0])));
    } else {
        let m: nat = n / 10;
        let r: nat = n % 10;
        assert(m * 10 + r == n) by (nonlinear_arith)
            requires
                m == n / 10,
                r == n % 10,
        ;
        lemma_accumulate_decimal(m);
        lemma_accumulate_push(decimal(m), digits[r as int], 0);
        if m <= u32::MAX {
            assert(accumulate_digits(decimal(m), 0) == Ok::<u32, IntErrorKind>(m as u32));
        }
        assert(digit_value(digits[r as int]) == r);
        assert(decimal(n) == decimal(m).push(digits[r as int]));
        assert(decimal(n)[0] == decimal(m)[0]);
    }
}

/// A `priority` value is read as a decimal number: the digits of any `u32`,
/// with or without a leading `+`, give that number, and the digits of a
/// larger number overflow.
pub proof fn law_priority_value_is_decimal(n: nat)
    ensures
        n <= u32::MAX ==> parse_u32(decimal(n)) == Ok::<u32, IntErrorKind>(n as u32),
        n <= u32::MAX ==> parse_u32(seq!['+'] + decimal(n)) == Ok::<u32, IntErrorKind>(n as u32),
        n > u32::MAX ==> parse_u32(decimal(n)) == Err::<u32, IntErrorKind>(IntErrorKind::PosOverflow),
        n > u32::MAX ==> parse_u32(seq!['+'] + decimal(n)) == Err::<u32, IntErrorKind>(
            IntErrorKind::PosOverflow,
        ),
{
    lemma_accumulate_decimal(n);
    let d = decimal(n);
    assert(d[0] != '+');
    assert((seq!['+'] + d).skip(1) =~= d);
}

/// Without directives a pattern's priority is its length in UTF-8 bytes, so
/// a longer pattern has a higher priority.
pub proof fn law_longer_pattern_higher_priority(a: Seq<char>, b: Seq<char>)
    requires
        vstd::utf8::encode_utf8(a).len() < vstd::utf8::encode_utf8(b).len() <= u32::MAX,
    ensures
        pattern_priority(seq![], default_priority(a)) == Ok::<u32, ErrorModel>(default_priority(a)),
        default_priority(a) < default_priority(b),
        default_priority(b) == vstd::utf8::encode_utf8(b).len(),
{
}

/// A directive other than `priority` is rejected when every directive before
/// it is a valid `priority` directive.
pub proof fn law_unknown_directive_is_rejected(dirs: Seq<DirectiveModel>, p: u32, k: int)
    requires
        0 <= k < dirs.len(),
        dirs[k].key != "priority"@,
        forall|m: int| 0 <= m < k ==> #[trigger] dirs[m].key == "priority"@,
        forall|m: int| 0 <= m < k ==> #[trigger] parse_u32(dirs[m].value) is Ok,
    ensures
        pattern_priority(dirs, p) == Err::<u32, ErrorModel>(ErrorModel::DirectiveUnknown(dirs[k].key)),
    decreases k,
{
    if k > 0 {
        let rest = dirs.skip(1);
        assert forall|m: int| 0 <= m < k - 1 implies #[trigger] rest[m].key == "priority"@ by {
            assert(rest[m] == dirs[m + 1]);
        }
        assert forall|m: int| 0 <= m < k - 1 implies #[trigger] parse_u32(rest[m].value) is Ok by {
            assert(rest[m] == dirs[m + 1]);
        }
        assert(rest[k - 1] == dirs[k]);
        law_unknown_directive_is_rejected(rest, parse_u32(dirs[0].value)->Ok_0, k - 1);
    }
}

// ---------------------------------------------------------------------------
// Building rules
/// Blank lines and comments add no rules.
pub proof fn law_blank_and_comment_lines_add_no_rules(es: Seq<EntryModel>)
    ensures
        build_rules(es.push(EntryModel::Blank)) == build_rules(es),
        build_rules(es.push(EntryModel::Comment)) == build_rules(es),
{
    assert(es.push(EntryModel::Blank).drop_last() =~= es);
    assert(es.push(EntryModel::Comment).drop_last() =~= es);
}

/// A line of directives without a pattern is rejected.
pub proof fn law_directive_only_line_is_rejected(es: Seq<EntryModel>, ds: Seq<DirectiveModel>)
    requires
        build_rules(es) is Ok,
    ensures
        build_rules(es.push(EntryModel::Directives(ds))) == Err::<Seq<RuleModel>, ErrorModel>(
            ErrorModel::DirectiveGlobalUnsupported,
        ),
{
    assert(es.push(EntryModel::Directives(ds)).drop_last() =~= es);
}

/// A negated pattern that does not start with `/` is rejected.
pub proof fn law_negated_pattern_must_be_absolute(rs: Seq<RuleModel>, p: u32, glob: Seq<char>)
    requires
        !(glob.len() > 0 && glob[0] == '/'),
    ensures
        pattern_rules(rs, p, true, glob) == Err::<Seq<RuleModel>, ErrorModel>(
            ErrorModel::PatternNegatedMustBeAbsolute,
        ),
{
}

/// A negated pattern with a `**` component anywhere, the last one included,
/// is rejected.
pub proof fn law_negated_pattern_with_recursive_component_is_rejected(
    rs: Seq<RuleModel>,
    p: u32,
    glob: Seq<char>,
    k: int,
)
    requires
        glob.len() > 0,
        glob[0] == '/',
        0 <= k < crate::rules::path_parts(glob).len(),
        crate::rules::path_parts(glob)[k] == seq!['*', '*'],
    ensures
        pattern_rules(rs, p, true, glob) == Err::<Seq<RuleModel>, ErrorModel>(
            ErrorModel::PatternNegatedNoArbitrarySubdirectories,
        ),
{
    assert(crate::rules::has_recursive_part(crate::rules::path_parts(glob)));
}

proof fn lemma_slash_end_first(s: Seq<char>, i: int)
    requires
        0 <= i <= s.len(),
    ensures
        crate::rules::slash_end(s, i) < s.len() ==> s[crate::rules::slash_end(s, i)] == '/',
        forall|k: int| i <= k < crate::rules::slash_end(s, i) ==> s[k] != '/',
    decreases s.len() - i,
{
    if i < s.len() && s[i] != '/' {
        lemma_slash_end_first(s, i + 1);
    }
}

/// The last piece of `split_from(s, start)` is what follows the last `/`.
proof fn lemma_split_last(s: Seq<char>, start: int, j: int)
    requires
        0 <= start <= j <= s.len(),
        j == start || s[j - 1] == '/',
        forall|k: int| j <= k < s.len() ==> s[k] != '/',
    ensures
        crate::rules::split_from(s, start).len() > 0,
        crate::rules::split_from(s, start).last() == s.subrange(j, s.len() as int),
    decreases s.len() - start,
{
    let e = crate::rules::slash_end(s, start);
    crate::rules::lemma_slash_end_bounds(s, start);
    lemma_slash_end_first(s, start);
    if e >= s.len() {
        if j > start {
            assert(s[j - 1] != '/');
        }
    } else {
        if e >= j {
            assert(s[e] != '/');
        }
        lemma_split_last(s, e + 1, j);
    }
}

proof fn lemma_strip_leading(s: Seq<char>) -> (m: int)
    ensures
        0 <= m <= s.len(),
        crate::rules::strip_leading_slashes(s) == s.skip(m),
        m < s.len() ==> s[m] != '/',
        forall|k: int| 0 <= k < m ==> s[k] == '/',
    decreases s.len(),
{
    if s.len() > 0 && s[0] == '/' {
        let m1 = lemma_strip_leading(s.skip(1));
        assert(s.skip(1).skip(m1) =~= s.skip(1 + m1));
        assert forall|k: int| 0 <= k < 1 + m1 implies s[k] == '/' by {
            if k > 0 {
                assert(s[k] == s.skip(1)[k - 1]);
            }
        }
        1 + m1
    } else {
        assert(s.skip(0) =~= s);
        0
    }
}

/// A negated pattern that ends with a `**` component is rejected too.
pub proof fn law_negated_pattern_ending_in_double_star_is_rejected(
    rs: Seq<RuleModel>,
    p: u32,
    x: Seq<char>,
)
    requires
        x.len() == 0 || x[0] == '/',
    ensures
        pattern_rules(rs, p, true, x + seq!['/', '*', '*']) == Err::<Seq<RuleModel>, ErrorModel>(
            ErrorModel::PatternNegatedNoArbitrarySubdirectories,
        ),
{
    let g = x + seq!['/', '*', '*'];
    let n = g.len() as int;
    assert(g[n - 1] == '*' && g[n - 2] == '*' && g[n - 3] == '/');
    assert(g[0] == '/');
    let m = lemma_strip_leading(g);
    assert(m <= n - 2);
    let t0 = g.skip(m);
    assert(t0.last() == '*');
    assert(crate::rules::strip_trailing_slashes(t0) == t0);
    let t = t0;
    let j = t.len() - 2;
    assert(t[j] == '*' && t[j + 1] == '*');
    if j > 0 {
        assert(m <= n - 3);
        assert(t[j - 1] == g[n - 3]);
    }
    assert forall|k: int| j <= k < t.len() implies t[k] != '/' by {}
    lemma_split_last(t, 0, j);
    let parts = crate::rules::path_parts(g);
    assert(parts == crate::rules::split_from(t, 0));
    assert(t.subrange(j, t.len() as int) =~= seq!['*', '*']);
    law_negated_pattern_with_recursive_component_is_rejected(rs, p, g, parts.len() - 1);
}

/// The rules a line adds come after the rules before it, which stay as they
/// were, and all have the priority of the line.
pub proof fn law_pattern_rules_extend(rs: Seq<RuleModel>, p: u32, negated: bool, glob: Seq<char>)
    ensures
        pattern_rules(rs, p, negated, glob) matches Ok(out) ==> {
            &&& rs.is_prefix_of(out)
            &&& out.len() > rs.len()
            &&& forall|k: int| rs.len() <= k < out.len() ==> #[trigger] out[k].priority == p
            &&& forall|k: int| rs.len() <= k < out.len() ==> #[trigger] out[k].negated == negated
        },
{
    if negated && glob.len() > 0 && glob[0] == '/' {
        if let Ok(r1) = push_rule(rs, p, true, false, seq!['/']) {
            let parts = crate::rules::path_parts(glob);
            lemma_push_parents_extend(r1, p, parts, seq!['/']);
            if let Ok(r2) = push_parents(r1, p, parts, seq!['/']) {
                if let Ok(out) = push_rule(r2, p, true, glob.last() == '/', glob) {
                    assert(r2[rs.len() as int] == r1[rs.len() as int]);
                    assert forall|k: int| rs.len() <= k < out.len() implies #[trigger] out[k].priority
                        == p && out[k].negated by {
                        if k < r2.len() {
                            assert(out[k] == r2[k]);
                        }
                    }
                    assert forall|k: int| 0 <= k < rs.len() implies out[k] == rs[k] by {
                        assert(out[k] == r2[k]);
                        assert(r2[k] == r1[k]);
                    }
                    assert(rs =~= out.subrange(0, rs.len() as int));
                }
            }
        }
    } else if !negated {
        if let Ok(out) = push_rule(rs, p, false, false, glob) {
            assert(rs =~= out.subrange(0, rs.len() as int));
        }
    }
}

proof fn lemma_push_parents_extend(rs: Seq<RuleModel>, p: u32, parts: Seq<Seq<char>>, cur: Seq<char>)
    ensures
        push_parents(rs, p, parts, cur) matches Ok(out) ==> {
            &&& rs.is_prefix_of(out)
            &&& forall|k: int| rs.len() <= k < out.len() ==> #[trigger] out[k].priority == p
            &&& forall|k: int| rs.len() <= k < out.len() ==> #[trigger] out[k].negated
        },
    decreases parts.len(),
{
    if parts.len() > 1 {
        let next = cur + parts[0] + seq!['/'];
        if let Ok(r2) = push_rule(rs, p, true, false, next) {
            lemma_push_parents_extend(r2, p, parts.skip(1), next);
            if let Ok(out) = push_parents(r2, p, parts.skip(1), next) {
                assert(out[rs.len() as int] == r2[rs.len() as int]);
                assert forall|k: int| 0 <= k < rs.len() implies out[k] == rs[k] by {
                    assert(out[k] == r2[k]);
                }
                assert(rs =~= out.subrange(0, rs.len() as int));
            }
        }
    } else {
        assert(rs =~= rs.subrange(0, rs.len() as int));
    }
}

/// A negated pattern first includes the root directory `/`, so that matching
/// can reach what it includes.
pub proof fn law_negated_pattern_includes_root(rs: Seq<RuleModel>, p: u32, glob: Seq<char>)
    ensures
        pattern_rules(rs, p, true, glob) matches Ok(out) ==> (out[rs.len() as int] == (RuleModel {
            order: rs.len() as int,
            priority: p,
            negated: true,
            recursive: false,
            text: seq!['/'],
        })),
{
    if glob.len() > 0 && glob[0] == '/' {
        if let Ok(r1) = push_rule(rs, p, true, false, seq!['/']) {
            let parts = crate::rules::path_parts(glob);
            lemma_push_parents_extend(r1, p, parts, seq!['/']);
            if let Ok(r2) = push_parents(r1, p, parts, seq!['/']) {
                if let Ok(out) = push_rule(r2, p, true, glob.last() == '/', glob) {
                    assert(out[rs.len() as int] == r2[rs.len() as int]);
                    assert(r2[rs.len() as int] == r1[rs.len() as int]);
                }
            }
        }
    }
}

/// The directory made of the first `m` components: `/c_0/.../c_(m-1)/`.
pub open spec fn dir_prefix(parts: Seq<Seq<char>>, m: int) -> Seq<char>
    decreases m,
{
    if m <= 0 {
        seq!['/']
    } else {
        dir_prefix(parts, m - 1) + parts[m - 1] + seq!['/']
    }
}

proof fn lemma_push_parents_texts(rs: Seq<RuleModel>, p: u32, parts: Seq<Seq<char>>, j: int)
    requires
        0 <= j <= parts.len(),
    ensures
        push_parents(rs, p, parts.skip(j), dir_prefix(parts, j)) matches Ok(out) ==> out.len()
            >= rs.len() + (parts.len() - 1 - j),
        push_parents(rs, p, parts.skip(j), dir_prefix(parts, j)) matches Ok(out) ==> forall|k: int|
            j <= k < parts.len() - 1 ==> #[trigger] out[rs.len() + (k - j)] == (RuleModel {
                order: rs.len() + (k - j),
                priority: p,
                negated: true,
                recursive: false,
                text: dir_prefix(parts, k + 1),
            }),
    decreases parts.len() - j,
{
    let tail = parts.skip(j);
    if tail.len() > 1 {
        let next = dir_prefix(parts, j) + tail[0] + seq!['/'];
        assert(tail[0] == parts[j]);
        assert(next == dir_prefix(parts, j + 1));
        assert(tail.skip(1) =~= parts.skip(j + 1));
        if let Ok(r2) = push_rule(rs, p, true, false, next) {
            lemma_push_parents_texts(r2, p, parts, j + 1);
            lemma_push_parents_extend(r2, p, parts.skip(j + 1), next);
            if let Ok(out) = push_parents(r2, p, parts.skip(j + 1), next) {
                assert forall|k: int| j <= k < parts.len() - 1 implies #[trigger] out[rs.len() + (k
                    - j)] == (RuleModel {
                    order: rs.len() + (k - j),
                    priority: p,
                    negated: true,
                    recursive: false,
                    text: dir_prefix(parts, k + 1),
                }) by {
                    if k == j {
                        assert(out[rs.len() as int] == r2[rs.len() as int]);
                    } else {
                        assert(out[r2.len() + (k - (j + 1))] == out[rs.len() + (k - j)]);
                    }
                }
            }
        }
    }
}

/// After the rule for `/`, a negated pattern adds an include rule for each
/// of its parent directories `/c_0/`, `/c_0/c_1/`, ..., in order, with the
/// pattern's priority.
pub proof fn law_negated_pattern_includes_parent_directories(rs: Seq<RuleModel>, p: u32, glob: Seq<char>)
    ensures
        pattern_rules(rs, p, true, glob) matches Ok(out) ==> forall|k: int|
            0 <= k < crate::rules::path_parts(glob).len() - 1 ==> #[trigger] out[rs.len() + 1 + k]
                == (RuleModel {
                order: rs.len() + 1 + k,
                priority: p,
                negated: true,
                recursive: false,
                text: dir_prefix(crate::rules::path_parts(glob), k + 1),
            }),
{
    let parts = crate::rules::path_parts(glob);
    if glob.len() > 0 && glob[0] == '/' {
        if let Ok(r1) = push_rule(rs, p, true, false, seq!['/']) {
            assert(parts.skip(0) =~= parts);
            assert(dir_prefix(parts, 0) == seq!['/']);
            lemma_push_parents_texts(r1, p, parts, 0);
            if let Ok(r2) = push_parents(r1, p, parts, seq!['/']) {
                if let Ok(out) = push_rule(r2, p, true, glob.last() == '/', glob) {
                    assert forall|k: int| 0 <= k < parts.len() - 1 implies #[trigger] out[rs.len()
                        + 1 + k] == (RuleModel {
                        order: rs.len() + 1 + k,
                        priority: p,
                        negated: true,
                        recursive: false,
                        text: dir_prefix(parts, k + 1),
                    }) by {
                        assert(r1.len() + (k - 0) == rs.len() + 1 + k);
                        assert(r2[r1.len() + (k - 0)] == (RuleModel {
                            order: r1.len() + (k - 0),
                            priority: p,
                            negated: true,
                            recursive: false,
                            text: dir_prefix(parts, k + 1),
                        }));
                        assert(out[rs.len() + 1 + k] == r2[rs.len() + 1 + k]);
                    }
                }
            }
        }
    }
}

proof fn lemma_no_wildcards_subrange(s: Seq<char>, i: int, j: int)
    requires
        has_no_wildcards(s),
        0 <= i <= j <= s.len(),
    ensures
        has_no_wildcards(s.subrange(i, j)),
{
    let t = s.subrange(i, j);
    assert forall|k: int| 0 <= k < t.len() implies t[k] != '*' && t[k] != '?' && t[k] != '[' by {
        assert(t[k] == s[i + k]);
    }
}

proof fn lemma_no_wildcards_concat(a: Seq<char>, b: Seq<char>)
    requires
        has_no_wildcards(a),
        has_no_wildcards(b),
    ensures
        has_no_wildcards(a + b),
{
    let t = a + b;
    assert forall|k: int| 0 <= k < t.len() implies t[k] != '*' && t[k] != '?' && t[k] != '[' by {
        if k < a.len() {
            assert(t[k] == a[k]);
        } else {
            assert(t[k] == b[k - a.len()]);
        }
    }
}

proof fn lemma_no_wildcards_stripped(s: Seq<char>)
    requires
        has_no_wildcards(s),
    ensures
        has_no_wildcards(crate::rules::strip_leading_slashes(s)),
        has_no_wildcards(crate::rules::strip_trailing_slashes(s)),
    decreases s.len(),
{
    if s.len() > 0 {
        lemma_no_wildcards_subrange(s, 1, s.len() as int);
        assert(s.skip(1) =~= s.subrange(1, s.len() as int));
        lemma_no_wildcards_stripped(s.skip(1));
        lemma_no_wildcards_subrange(s, 0, s.len() - 1);
        assert(s.drop_last() =~= s.subrange(0, s.len() - 1));
        lemma_no_wildcards_stripped(s.drop_last());
    }
}

proof fn lemma_no_wildcards_split(s: Seq<char>, start: int)
    requires
        has_no_wildcards(s),
    ensures
        forall|k: int|
            0 <= k < crate::rules::split_from(s, start).len() ==> has_no_wildcards(
                #[trigger] crate::rules::split_from(s, start)[k],
            ),
    decreases s.len() - start,
{
    if 0 <= start <= s.len() {
        let e = crate::rules::slash_end(s, start);
        crate::rules::lemma_slash_end_bounds(s, start);
        if e >= s.len() {
            lemma_no_wildcards_subrange(s, start, s.len() as int);
        } else {
            lemma_no_wildcards_subrange(s, start, e);
            lemma_no_wildcards_split(s, e + 1);
            let parts = crate::rules::split_from(s, start);
            let rest = crate::rules::split_from(s, e + 1);
            assert forall|k: int| 0 <= k < parts.len() implies has_no_wildcards(#[trigger] parts[k]) by {
                if k > 0 {
                    assert(parts[k] == rest[k - 1]);
                }
            }
        }
    }
}

proof fn lemma_dir_prefix_names_itself(parts: Seq<Seq<char>>, m: int)
    requires
        0 <= m <= parts.len(),
        forall|k: int| 0 <= k < parts.len() ==> has_no_wildcards(#[trigger] parts[k]),
    ensures
        is_anchored(dir_prefix(parts, m)),
        has_no_wildcards(dir_prefix(parts, m)),
    decreases m,
{
    let slash = seq!['/'];
    assert(has_no_wildcards(slash)) by {
        assert forall|k: int| 0 <= k < slash.len() implies slash[k] != '*' && slash[k] != '?'
            && slash[k] != '[' by {}
    }
    if m > 0 {
        lemma_dir_prefix_names_itself(parts, m - 1);
        let d = dir_prefix(parts, m - 1);
        lemma_no_wildcards_concat(d, parts[m - 1]);
        lemma_no_wildcards_concat(d + parts[m - 1], slash);
        assert((d + parts[m - 1] + slash)[0] == d[0]);
    }
}

/// The include rules that a negated pattern without wildcards adds for `/`
/// and for each directory above it name that directory itself: anchored,
/// free of wildcards, with the directory as their text. (Such a rule keeps
/// its directory included once it outranks every exclude rule: see
/// `PathFilter::matches`.)
pub proof fn law_parent_rules_name_their_directories(rs: Seq<RuleModel>, p: u32, glob: Seq<char>)
    requires
        has_no_wildcards(glob),
    ensures
        pattern_rules(rs, p, true, glob) matches Ok(out) ==> {
            &&& names_path(out[rs.len() as int], seq!['/'])
            &&& forall|k: int|
                0 <= k < crate::rules::path_parts(glob).len() - 1 ==> names_path(
                    #[trigger] out[rs.len() + 1 + k],
                    dir_prefix(crate::rules::path_parts(glob), k + 1),
                )
        },
{
    let parts = crate::rules::path_parts(glob);
    law_negated_pattern_includes_root(rs, p, glob);
    law_negated_pattern_includes_parent_directories(rs, p, glob);
    lemma_no_wildcards_stripped(glob);
    let t0 = crate::rules::strip_leading_slashes(glob);
    lemma_no_wildcards_stripped(t0);
    let t = crate::rules::strip_trailing_slashes(t0);
    if t.len() > 0 {
        lemma_no_wildcards_split(t, 0);
    }
    assert forall|k: int| 0 <= k < parts.len() implies has_no_wildcards(#[trigger] parts[k]) by {}
    lemma_dir_prefix_names_itself(parts, 0);
    if let Ok(out) = pattern_rules(rs, p, true, glob) {
        assert forall|k: int| 0 <= k < parts.len() - 1 implies names_path(
            #[trigger] out[rs.len() + 1 + k],
            dir_prefix(parts, k + 1),
        ) by {
            lemma_dir_prefix_names_itself(parts, k + 1);
        }
    }
}

/// When a negated pattern ends with `/`, its last rule includes the
/// directory and everything below it.
pub proof fn law_negated_directory_includes_descendants(
    rs: Seq<RuleModel>,
    p: u32,
    glob: Seq<char>,
    path: Seq<char>,
)
    requires
        glob.len() > 0,
        glob.last() == '/',
        glob.is_prefix_of(path),
    ensures
        pattern_rules(rs, p, true, glob) matches Ok(out) ==> {
            &&& out.last().negated
            &&& out.last().priority == p
            &&& rule_matches(out.last(), path)
        },
{
}

/// Every include rule's pattern starts with `/`.
pub open spec fn includes_are_absolute(rs: Seq<RuleModel>) -> bool {
    forall|k: int|
        0 <= k < rs.len() && #[trigger] rs[k].negated ==> rs[k].text.len() > 0 && rs[k].text[0]
            == '/'
}

proof fn lemma_push_parents_absolute(rs: Seq<RuleModel>, p: u32, parts: Seq<Seq<char>>, cur: Seq<char>)
    requires
        includes_are_absolute(rs),
        cur.len() > 0,
        cur[0] == '/',
    ensures
        push_parents(rs, p, parts, cur) matches Ok(out) ==> includes_are_absolute(out),
    decreases parts.len(),
{
    if parts.len() > 1 {
        let next = cur + parts[0] + seq!['/'];
        assert(next[0] == '/');
        if let Ok(r2) = push_rule(rs, p, true, false, next) {
            lemma_push_parents_absolute(r2, p, parts.skip(1), next);
        }
    }
}

proof fn lemma_entry_rules_absolute(rs: Seq<RuleModel>, e: EntryModel)
    requires
        includes_are_absolute(rs),
    ensures
        entry_rules(rs, e) matches Ok(out) ==> includes_are_absolute(out),
{
    if let EntryModel::Pattern { directives, negated, glob } = e {
        if let Ok(p) = pattern_priority(directives, default_priority(glob)) {
            if negated && glob.len() > 0 && glob[0] == '/' {
                if let Ok(r1) = push_rule(rs, p, true, false, seq!['/']) {
                    let parts = crate::rules::path_parts(glob);
                    lemma_push_parents_absolute(r1, p, parts, seq!['/']);
                }
            }
        }
    }
}

/// Every include rule of a filter has a pattern that starts with `/`: a
/// negated pattern must be absolute, and the rules for its parent
/// directories are too.
pub proof fn law_include_rules_are_absolute(es: Seq<EntryModel>)
    ensures
        build_rules(es) matches Ok(rs) ==> includes_are_absolute(rs),
    decreases es.len(),
{
    if es.len() > 0 {
        law_include_rules_are_absolute(es.drop_last());
        if let Ok(rs) = build_rules(es.drop_last()) {
            lemma_entry_rules_absolute(rs, es.last());
        }
    }
}

// ---------------------------------------------------------------------------
// The text format
/// A line whose first character after blanks is `#` is a comment.
pub proof fn law_hash_line_is_comment(l: Seq<char>)
    requires
        skip_blanks(trim_line(l), 0) < trim_line(l).len(),
        trim_line(l)[skip_blanks(trim_line(l), 0)] == '#',
    ensures
        parse_line(l) == Ok::<EntryModel, int>(EntryModel::Comment),
{
}

/// Trailing spaces are ignored unless escaped.
pub proof fn law_trailing_space_is_ignored(l: Seq<char>)
    requires
        l.len() > 0 ==> l.last() != '\\' && l.last() != '\r',
    ensures
        trim_line(l.push(' ')) == trim_line(l),
        parse_line(l.push(' ')) == parse_line(l),
{
    let m = l.push(' ');
    assert(without_cr(m) == m);
    assert(without_cr(l) == l);
    lemma_trimmed_len_prefix(m, l, l.len() as int);
    assert(trimmed_len(m, m.len() as int) == trimmed_len(m, l.len() as int));
    crate::grammar::lemma_trimmed_len_bounds(l, l.len() as int);
    assert(m.subrange(0, trimmed_len(l, l.len() as int)) =~= l.subrange(
        0,
        trimmed_len(l, l.len() as int),
    ));
}

proof fn lemma_trimmed_len_prefix(a: Seq<char>, b: Seq<char>, n: int)
    requires
        0 <= n <= b.len() <= a.len(),
        forall|k: int| 0 <= k < b.len() ==> a[k] == b[k],
    ensures
        trimmed_len(a, n) == trimmed_len(b, n),
    decreases n,
{
    if n > 0 {
        lemma_trimmed_len_prefix(a, b, n - 1);
    }
}

/// Writes `v` inside quotes: each `"` and `\` is preceded by a backslash.
pub open spec fn escape(v: Seq<char>) -> Seq<char>
    decreases v.len(),
{
    if v.len() == 0 {
        seq![]
    } else if v[0] == '"' || v[0] == '\\' {
        seq!['\\', v[0]] + escape(v.skip(1))
    } else {
        seq![v[0]] + escape(v.skip(1))
    }
}

/// Backslash escapes the next character inside a quoted value: every value
/// can be written quoted and reads back unchanged.
pub proof fn law_quoted_value_round_trip(v: Seq<char>)
    ensures
        escapes_complete(escape(v)),
        unescape(escape(v)) == v,
    decreases v.len(),
{
    if v.len() > 0 {
        law_quoted_value_round_trip(v.skip(1));
        let e = escape(v);
        if v[0] == '"' || v[0] == '\\' {
            assert(e.skip(2) =~= escape(v.skip(1)));
        } else {
            assert(e.skip(1) =~= escape(v.skip(1)));
        }
        assert(seq![v[0]] + v.skip(1) =~= v);
    }
}

// ---------------------------------------------------------------------------
// Directives before a pattern
proof fn lemma_skip_blanks_run(s: Seq<char>, i: int, j: int)
    requires
        0 <= i <= j <= s.len(),
        forall|k: int| i <= k < j ==> is_blank(#[trigger] s[k]),
        j == s.len() || !is_blank(s[j]),
    ensures
        skip_blanks(s, i) == j,
    decreases j - i,
{
    if i < j {
        lemma_skip_blanks_run(s, i + 1, j);
    }
}

proof fn lemma_key_end_run(s: Seq<char>, i: int, j: int)
    requires
        0 <= i <= j <= s.len(),
        forall|k: int| i <= k < j ==> is_key_char(#[trigger] s[k]),
        j == s.len() || !is_key_char(s[j]),
    ensures
        key_end(s, i) == j,
    decreases j - i,
{
    if i < j {
        lemma_key_end_run(s, i + 1, j);
    }
}

proof fn lemma_bare_end_run(s: Seq<char>, i: int, j: int)
    requires
        0 <= i <= j <= s.len(),
        forall|k: int| i <= k < j ==> !is_blank(#[trigger] s[k]) && s[k] != '"',
        j == s.len() || is_blank(s[j]) || s[j] == '"',
    ensures
        bare_end(s, i) == j,
    decreases j - i,
{
    if i < j {
        lemma_bare_end_run(s, i + 1, j);
    }
}

/// The text of the directive `@key:value` with a bare value.
pub open spec fn directive_text(key: Seq<char>, value: Seq<char>) -> Seq<char> {
    seq!['@'] + key + seq![':'] + value
}

/// A directive with a bare value, the pattern it prefixes and the blanks
/// between them, as the conditions of
/// `law_blanks_separate_directive_from_pattern` ask.
pub open spec fn directive_then_pattern(
    key: Seq<char>,
    value: Seq<char>,
    w: Seq<char>,
    g: Seq<char>,
) -> bool {
    &&& key.len() > 0
    &&& forall|k: int| 0 <= k < key.len() ==> is_key_char(#[trigger] key[k])
    &&& value.len() > 0
    &&& forall|k: int| 0 <= k < value.len() ==> !is_blank(#[trigger] value[k]) && value[k] != '"'
    &&& w.len() > 0
    &&& forall|k: int| 0 <= k < w.len() ==> is_blank(#[trigger] w[k])
    &&& g.len() > 0
    &&& !is_blank(g[0])
    &&& g[0] != '@'
    &&& (g[0] == '!' ==> g.len() > 1)
    &&& !is_blank(g.last())
    &&& g.last() != '\r'
}

#[verifier::rlimit(40)]
proof fn lemma_directive_then_pattern(key: Seq<char>, value: Seq<char>, w: Seq<char>, g: Seq<char>)
    requires
        directive_then_pattern(key, value, w, g),
    ensures
        parse_line(directive_text(key, value) + w + g) == Ok::<EntryModel, int>(
            EntryModel::Pattern {
                directives: seq![DirectiveModel { key, value }],
                negated: g[0] == '!',
                glob: if g[0] == '!' {
                    g.skip(1)
                } else {
                    g
                },
            },
        ),
{
    let d = directive_text(key, value);
    let l = d + w + g;
    let len = l.len() as int;
    let kl = key.len() as int;
    let vl = value.len() as int;
    let wl = w.len() as int;
    let k = 1 + kl;
    let e = k + 1 + vl;
    let n = e + wl;
    assert(d.len() == e);
    assert(l[len - 1] == g.last());
    assert(without_cr(l) == l);
    assert(trimmed_len(l, len) == len);
    assert(trim_line(l) =~= l);
    assert(l[0] == '@');
    assert(skip_blanks(l, 0) == 0);
    assert forall|i: int| 1 <= i < k implies is_key_char(#[trigger] l[i]) by {
        assert(l[i] == key[i - 1]);
    }
    assert(l[k] == ':');
    lemma_key_end_run(l, 1, k);
    assert forall|i: int| k + 1 <= i < e implies !is_blank(#[trigger] l[i]) && l[i] != '"' by {
        assert(l[i] == value[i - k - 1]);
    }
    assert(l[e] == w[0]);
    lemma_bare_end_run(l, k + 1, e);
    assert(l[k + 1] == value[0]);
    assert(l.subrange(1, k) =~= key);
    assert(l.subrange(k + 1, e) =~= value);
    assert forall|i: int| e <= i < n implies is_blank(#[trigger] l[i]) by {
        assert(l[i] == w[i - e]);
    }
    assert(l[n] == g[0]);
    lemma_skip_blanks_run(l, e, n);
    let ds = seq![DirectiveModel { key, value }];
    assert(seq![].push(DirectiveModel { key, value }) =~= ds);
    assert(parse_directive(l, 0) == Ok::<(DirectiveModel, int), int>((DirectiveModel { key, value }, e)));
    assert(parse_items(l, 0, seq![]) == parse_items(l, n, ds));
    assert(l.subrange(n, len) =~= g);
    assert(l.subrange(n + 1, len) =~= g.skip(1));
}

/// Any run of blanks separates a directive from the pattern after it: a
/// line made of a directive `@key:value`, one or more blanks and a pattern
/// reads as that directive and that pattern (negated when it starts with
/// `!`), and the number of blanks makes no difference.
pub proof fn law_blanks_separate_directive_from_pattern(
    key: Seq<char>,
    value: Seq<char>,
    w: Seq<char>,
    g: Seq<char>,
)
    requires
        directive_then_pattern(key, value, w, g),
    ensures
        parse_line(directive_text(key, value) + w + g) == Ok::<EntryModel, int>(
            EntryModel::Pattern {
                directives: seq![DirectiveModel { key, value }],
                negated: g[0] == '!',
                glob: if g[0] == '!' {
                    g.skip(1)
                } else {
                    g
                },
            },
        ),
        parse_line(directive_text(key, value) + w + g) == parse_line(
            directive_text(key, value) + seq![' '] + g,
        ),
{
    lemma_directive_then_pattern(key, value, w, g);
    let one = seq![' '];
    assert forall|k: int| 0 <= k < one.len() implies is_blank(#[trigger] one[k]) by {}
    lemma_directive_then_pattern(key, value, one, g);
}

// ---------------------------------------------------------------------------
// Lines and entries
/// Parsing reads each line on its own: when every line parses there is one
/// entry per line, in order; otherwise the error names the first line that
/// does not parse, and every line before it parses.
pub proof fn law_one_entry_per_line(ls: Seq<Seq<char>>)
    ensures
        parse_lines(ls) is Ok <==> forall|i: int| 0 <= i < ls.len() ==> #[trigger] parse_line(ls[i]) is Ok,
        parse_lines(ls) matches Ok(es) ==> es.len() == ls.len() && forall|i: int|
            0 <= i < ls.len() ==> #[trigger] parse_line(ls[i]) == Ok::<EntryModel, int>(es[i]),
        parse_lines(ls) matches Err((l, c)) ==> {
            &&& 0 <= l < ls.len()
            &&& forall|i: int| 0 <= i < l ==> #[trigger] parse_line(ls[i]) is Ok
            &&& parse_line(ls[l]) == Err::<EntryModel, int>(c)
        },
    decreases ls.len(),
{
    if ls.len() > 0 {
        let init = ls.drop_last();
        law_one_entry_per_line(init);
        assert forall|i: int| 0 <= i < init.len() implies #[trigger] init[i] == ls[i] by {}
        match parse_lines(init) {
            Err((l, c)) => {
                assert(init[l] == ls[l]);
                assert(parse_line(ls[l]) is Err);
                assert forall|i: int| 0 <= i < l implies #[trigger] parse_line(ls[i]) is Ok by {
                    assert(init[i] == ls[i]);
                }
            },
            Ok(es0) => {
                match parse_line(ls.last()) {
                    Ok(e) => {
                        let es = es0.push(e);
                        assert forall|i: int| 0 <= i < ls.len() implies #[trigger] parse_line(ls[i])
                            == Ok::<EntryModel, int>(es[i]) by {
                            if i < init.len() {
                                assert(init[i] == ls[i]);
                                assert(parse_line(init[i]) == Ok::<EntryModel, int>(es0[i]));
                            }
                        }
                    },
                    Err(c) => {
                        assert forall|i: int| 0 <= i < ls.len() - 1 implies #[trigger] parse_line(
                            ls[i],
                        ) is Ok by {
                            assert(init[i] == ls[i]);
                            assert(parse_line(init[i]) is Ok);
                        }
                    },
                }
            },
        }
    }
}

/// A blank or comment entry adds no rules wherever it stands.
pub proof fn law_blank_or_comment_entry_anywhere(a: Seq<EntryModel>, e: EntryModel, b: Seq<EntryModel>)
    requires
        e is Blank || e is Comment,
    ensures
        build_rules(a + seq![e] + b) == build_rules(a + b),
    decreases b.len(),
{
    if b.len() == 0 {
        assert(a + seq![e] + b =~= a.push(e));
        assert(a.push(e).drop_last() =~= a);
        assert(a + b =~= a);
    } else {
        let init = b.drop_last();
        law_blank_or_comment_entry_anywhere(a, e, init);
        assert((a + seq![e] + b).drop_last() =~= a + seq![e] + init);
        assert((a + b).drop_last() =~= a + init);
    }
}

/// A file's rules fail exactly when some entry fails once the entries before
/// it have given their rules, and the error is that of the first such entry.
pub proof fn law_first_failing_entry_decides(es: Seq<EntryModel>)
    ensures
        build_rules(es) is Err ==> exists|k: int|
            0 <= k < es.len() && #[trigger] build_rules(es.take(k)) is Ok && entry_rules(
                build_rules(es.take(k))->Ok_0,
                es[k],
            ) == build_rules(es),
        forall|k: int|
            0 <= k < es.len() && #[trigger] build_rules(es.take(k)) is Ok && entry_rules(
                build_rules(es.take(k))->Ok_0,
                es[k],
            ) is Err ==> build_rules(es) == entry_rules(build_rules(es.take(k))->Ok_0, es[k]),
    decreases es.len(),
{
    assert forall|k: int|
        0 <= k < es.len() && #[trigger] build_rules(es.take(k)) is Ok && entry_rules(
            build_rules(es.take(k))->Ok_0,
            es[k],
        ) is Err implies build_rules(es) == entry_rules(build_rules(es.take(k))->Ok_0, es[k]) by {
        assert(es.take(k + 1).drop_last() =~= es.take(k));
        assert(es.take(k + 1).last() == es[k]);
        crate::rules::lemma_build_rules_error_stays(es, k + 1);
    }
    if es.len() > 0 && build_rules(es) is Err {
        let init = es.drop_last();
        law_first_failing_entry_decides(init);
        if build_rules(init) is Err {
            let k = choose|k: int|
                0 <= k < init.len() && #[trigger] build_rules(init.take(k)) is Ok && entry_rules(
                    build_rules(init.take(k))->Ok_0,
                    init[k],
                ) == build_rules(init);
            assert(init.take(k) =~= es.take(k));
            assert(init[k] == es[k]);
            assert(build_rules(es.take(k)) is Ok);
        } else {
            let k = es.len() - 1;
            assert(es.take(k) =~= init);
            assert(build_rules(es.take(k)) is Ok);
        }
    }
}

proof fn lemma_pattern_priority_errors(dirs: Seq<DirectiveModel>, p: u32)
    ensures
        pattern_priority(dirs, p) matches Err(x) ==> x is DirectiveUnknown || x is DirectiveValueInvalid,
    decreases dirs.len(),
{
    if dirs.len() > 0 {
        if let Ok(n) = parse_u32(dirs[0].value) {
            lemma_pattern_priority_errors(dirs.skip(1), n);
        }
    }
}

proof fn lemma_push_parents_errors(rs: Seq<RuleModel>, p: u32, parts: Seq<Seq<char>>, cur: Seq<char>)
    ensures
        push_parents(rs, p, parts, cur) matches Err(x) ==> x is Pattern,
    decreases parts.len(),
{
    if parts.len() > 1 {
        let next = cur + parts[0] + seq!['/'];
        if let Ok(r2) = push_rule(rs, p, true, false, next) {
            lemma_push_parents_errors(r2, p, parts.skip(1), next);
        }
    }
}

/// What can make a line fail: a line of directives alone; or, on a pattern
/// line, an unknown directive, a bad priority value, a negated pattern that is
/// not absolute or holds a `**` component, or a pattern (or, for a negated
/// one, the pattern of a parent directory) that `glob` refuses. Blank and
/// comment lines never fail.
pub proof fn law_what_makes_a_line_fail(rs: Seq<RuleModel>, e: EntryModel)
    ensures
        entry_rules(rs, e) matches Err(x) ==> {
            ||| e is Directives && x is DirectiveGlobalUnsupported
            ||| e is Pattern && {
                ||| x is DirectiveUnknown
                ||| x is DirectiveValueInvalid
                ||| x is PatternNegatedMustBeAbsolute
                ||| x is PatternNegatedNoArbitrarySubdirectories
                ||| x is Pattern
            }
        },
{
    if let EntryModel::Pattern { directives, negated, glob } = e {
        lemma_pattern_priority_errors(directives, default_priority(glob));
        if let Ok(p) = pattern_priority(directives, default_priority(glob)) {
            if let Ok(r1) = push_rule(rs, p, true, false, seq!['/']) {
                lemma_push_parents_errors(r1, p, crate::rules::path_parts(glob), seq!['/']);
            }
        }
    }
}

/// Loading a text fails exactly when a line is malformed, or when some line,
/// read once the lines before it have all given their rules, is refused.
/// The error is then the first such line's: its place in the text for a
/// malformed line, else what refused it, which is one of the causes that
/// `law_what_makes_a_line_fail` lists.
pub proof fn law_when_loading_fails(s: Seq<char>)
    ensures
        parse_file(s) matches Err((l, c)) ==> filter_rules(s) == Err::<Seq<RuleModel>, ErrorModel>(
            ErrorModel::Parsing { line: l + 1, offset: c },
        ),
        parse_file(s) matches Ok(es) ==> (filter_rules(s) is Err <==> exists|k: int|
            0 <= k < es.len() && #[trigger] build_rules(es.take(k)) is Ok && entry_rules(
                build_rules(es.take(k))->Ok_0,
                es[k],
            ) is Err),
        parse_file(s) matches Ok(es) ==> forall|k: int|
            0 <= k < es.len() && #[trigger] build_rules(es.take(k)) is Ok && entry_rules(
                build_rules(es.take(k))->Ok_0,
                es[k],
            ) is Err ==> filter_rules(s) == entry_rules(build_rules(es.take(k))->Ok_0, es[k]) && {
                let x = entry_rules(build_rules(es.take(k))->Ok_0, es[k])->Err_0;
                ||| es[k] is Directives && x is DirectiveGlobalUnsupported
                ||| es[k] is Pattern && {
                    ||| x is DirectiveUnknown
                    ||| x is DirectiveValueInvalid
                    ||| x is PatternNegatedMustBeAbsolute
                    ||| x is PatternNegatedNoArbitrarySubdirectories
                    ||| x is Pattern
                }
            },
{
    if let Ok(es) = parse_file(s) {
        law_first_failing_entry_decides(es);
        assert forall|k: int|
            0 <= k < es.len() && #[trigger] build_rules(es.take(k)) is Ok && entry_rules(
                build_rules(es.take(k))->Ok_0,
                es[k],
            ) is Err implies filter_rules(s) == entry_rules(build_rules(es.take(k))->Ok_0, es[k])
            && {
            let x = entry_rules(build_rules(es.take(k))->Ok_0, es[k])->Err_0;
            ||| es[k] is Directives && x is DirectiveGlobalUnsupported
            ||| es[k] is Pattern && {
                ||| x is DirectiveUnknown
                ||| x is DirectiveValueInvalid
                ||| x is PatternNegatedMustBeAbsolute
                ||| x is PatternNegatedNoArbitrarySubdirectories
                ||| x is Pattern
            }
        } by {
            law_what_makes_a_line_fail(build_rules(es.take(k))->Ok_0, es[k]);
        }
    }
}

/// Inserting a blank or comment line between the lines of a file changes
/// neither whether the file loads nor, when it loads, its rules.
#[verifier::rlimit(40)]
pub proof fn law_inserted_blank_or_comment_line(x: Seq<char>, l: Seq<char>, y: Seq<char>)
    requires
        x.len() == 0 || x.last() == '\n',
        !l.contains('\n'),
        parse_line(l) == Ok::<EntryModel, int>(EntryModel::Blank) || parse_line(l) == Ok::<
            EntryModel,
            int,
        >(EntryModel::Comment),
    ensures
        (filter_rules(x + l.push('\n') + y) is Ok) == (filter_rules(x + y) is Ok),
        filter_rules(x + y) is Ok ==> filter_rules(x + l.push('\n') + y) == filter_rules(x + y),
{
    let m = l.push('\n');
    let a = file_lines(x);
    let b = file_lines(y);
    assert(x + m + y =~= x + (m + y));
    lemma_lines_concat(x, m + y, 0);
    lemma_lines_of_line(l, y);
    lemma_lines_concat(x, y, 0);
    let ls1 = a + b;
    let ls2 = a + seq![l] + b;
    assert(file_lines(x + m + y) == ls2) by {
        assert(a + (seq![l] + b) =~= ls2);
    }
    assert(file_lines(x + y) == ls1);
    law_one_entry_per_line(ls1);
    law_one_entry_per_line(ls2);
    let k = a.len() as int;
    assert forall|i: int| 0 <= i < k implies #[trigger] ls2[i] == ls1[i] by {}
    assert forall|i: int| k <= i < ls1.len() implies #[trigger] ls2[i + 1] == ls1[i] by {}
    assert(ls2[k] == l);
    if parse_lines(ls1) is Ok {
        assert forall|i: int| 0 <= i < ls2.len() implies #[trigger] parse_line(ls2[i]) is Ok by {
            if i < k {
                assert(ls2[i] == ls1[i]);
                assert(parse_line(ls1[i]) is Ok);
            } else if i > k {
                assert(ls2[(i - 1) + 1] == ls1[i - 1]);
                assert(parse_line(ls1[i - 1]) is Ok);
            }
        }
        let es1 = parse_lines(ls1)->Ok_0;
        let es2 = parse_lines(ls2)->Ok_0;
        let e = parse_line(l)->Ok_0;
        let joined = es1.take(k) + seq![e] + es1.skip(k);
        assert forall|i: int| 0 <= i < es2.len() implies #[trigger] es2[i] == joined[i] by {
            assert(parse_line(ls2[i]) == Ok::<EntryModel, int>(es2[i]));
            if i < k {
                assert(ls2[i] == ls1[i]);
                assert(parse_line(ls1[i]) == Ok::<EntryModel, int>(es1[i]));
            } else if i > k {
                assert(ls2[(i - 1) + 1] == ls1[i - 1]);
                assert(parse_line(ls1[i - 1]) == Ok::<EntryModel, int>(es1[i - 1]));
            }
        }
        assert(es2 =~= joined);
        law_blank_or_comment_entry_anywhere(es1.take(k), e, es1.skip(k));
        assert(es1.take(k) + es1.skip(k) =~= es1);
    } else {
        let (bad, c) = parse_lines(ls1)->Err_0;
        if bad < k {
            assert(ls2[bad] == ls1[bad]);
        } else {
            assert(ls2[bad + 1] == ls1[bad]);
        }
    }
}

// ---------------------------------------------------------------------------
// Quoted values
/// How many escape pairs (a backslash and the character after it) `s` holds,
/// read left to right.
pub open spec fn escape_pairs(s: Seq<char>) -> nat
    decreases s.len(),
{
    if s.len() == 0 {
        0
    } else if s[0] == '\\' && s.len() >= 2 {
        1 + escape_pairs(s.skip(2))
    } else {
        escape_pairs(s.skip(1))
    }
}

/// The number of backslashes `s` ends with.
pub open spec fn trailing_backslashes(s: Seq<char>) -> nat
    decreases s.len(),
{
    if s.len() > 0 && s.last() == '\\' {
        1 + trailing_backslashes(s.drop_last())
    } else {
        0
    }
}

/// Unescaping drops exactly one character for each escape pair.
pub proof fn law_unescape_drops_one_char_per_pair(s: Seq<char>)
    ensures
        unescape(s).len() + escape_pairs(s) == s.len(),
    decreases s.len(),
{
    if s.len() > 0 {
        if s[0] == '\\' && s.len() >= 2 {
            law_unescape_drops_one_char_per_pair(s.skip(2));
        } else {
            law_unescape_drops_one_char_per_pair(s.skip(1));
        }
    }
}

proof fn lemma_trailing_bounds(s: Seq<char>)
    ensures
        trailing_backslashes(s) <= s.len(),
        trailing_backslashes(s) < s.len() ==> s[s.len() - 1 - trailing_backslashes(s)] != '\\',
        forall|i: int| s.len() - trailing_backslashes(s) <= i < s.len() ==> #[trigger] s[i] == '\\',
    decreases s.len(),
{
    if s.len() > 0 && s.last() == '\\' {
        let d = s.drop_last();
        lemma_trailing_bounds(d);
        assert forall|i: int| s.len() - trailing_backslashes(s) <= i < s.len() implies #[trigger] s[i]
            == '\\' by {
            if i < s.len() - 1 {
                assert(s[i] == d[i]);
            }
        }
        if trailing_backslashes(s) < s.len() {
            assert(s[s.len() - 1 - trailing_backslashes(s)] == d[d.len() - 1 - trailing_backslashes(d)]);
        }
    }
}

proof fn lemma_trailing_skip(s: Seq<char>, k: int)
    requires
        0 <= k <= s.len(),
    ensures
        trailing_backslashes(s.skip(k)) == if trailing_backslashes(s) <= s.len() - k {
            trailing_backslashes(s)
        } else {
            (s.len() - k) as nat
        },
    decreases s.len(),
{
    lemma_trailing_bounds(s);
    if k < s.len() {
        let d = s.drop_last();
        assert(s.skip(k).drop_last() =~= d.skip(k));
        assert(s.skip(k).last() == s.last());
        lemma_trailing_skip(d, k);
    } else {
        assert(s.skip(k).len() == 0);
    }
}

/// Every backslash of a quoted value's content has a character after it
/// exactly when the content does not end in an odd number of backslashes.
pub proof fn law_escapes_complete_iff_even_trailing_backslashes(s: Seq<char>)
    ensures
        escapes_complete(s) <==> trailing_backslashes(s) % 2 == 0,
    decreases s.len(),
{
    lemma_trailing_bounds(s);
    let t = trailing_backslashes(s);
    if s.len() > 0 {
        if s[0] != '\\' {
            law_escapes_complete_iff_even_trailing_backslashes(s.skip(1));
            lemma_trailing_skip(s, 1);
            if t == s.len() {
                assert(s[0] == '\\');
            }
        } else if s.len() == 1 {
            assert(s.last() == '\\');
            assert(trailing_backslashes(s.drop_last()) == 0);
        } else {
            law_escapes_complete_iff_even_trailing_backslashes(s.skip(2));
            lemma_trailing_skip(s, 2);
            if t == s.len() - 1 {
                assert(s[s.len() - 1 - t] != '\\');
            }
        }
    }
}

// ---------------------------------------------------------------------------
// Reordering lines
/// `x` and `y` hold, position by position, rules that differ at most in where
/// they were defined.
pub open spec fn alike(x: Seq<RuleModel>, y: Seq<RuleModel>) -> bool {
    &&& x.len() == y.len()
    &&& forall|k: int| 0 <= k < x.len() ==> same_but_order(#[trigger] x[k], y[k])
}

/// The rules of the entries `c` read after the rules `rs`.
pub open spec fn build_from(rs: Seq<RuleModel>, c: Seq<EntryModel>) -> Result<
    Seq<RuleModel>,
    ErrorModel,
>
    decreases c.len(),
{
    if c.len() == 0 {
        Ok(rs)
    } else {
        match build_from(rs, c.drop_last()) {
            Err(e) => Err(e),
            Ok(r) => entry_rules(r, c.last()),
        }
    }
}

/// The priority of a pattern line's rules, when its directives are valid.
pub open spec fn line_priority(e: EntryModel) -> Option<u32> {
    match e {
        EntryModel::Pattern { directives, negated: _, glob } => match pattern_priority(
            directives,
            default_priority(glob),
        ) {
            Ok(p) => Some(p),
            Err(_) => None,
        },
        _ => None,
    }
}

proof fn lemma_build_rules_from_empty(es: Seq<EntryModel>)
    ensures
        build_rules(es) == build_from(seq![], es),
    decreases es.len(),
{
    if es.len() > 0 {
        lemma_build_rules_from_empty(es.drop_last());
    }
}

proof fn lemma_build_from_concat(rs: Seq<RuleModel>, c1: Seq<EntryModel>, c2: Seq<EntryModel>)
    ensures
        build_from(rs, c1 + c2) == match build_from(rs, c1) {
            Err(e) => Err(e),
            Ok(r) => build_from(r, c2),
        },
    decreases c2.len(),
{
    if c2.len() == 0 {
        assert(c1 + c2 =~= c1);
    } else {
        lemma_build_from_concat(rs, c1, c2.drop_last());
        assert((c1 + c2).drop_last() =~= c1 + c2.drop_last());
        assert((c1 + c2).last() == c2.last());
    }
}

/// Two lists of rules extended by alike blocks, twice over, are extended by
/// alike blocks.
proof fn lemma_alike_chain(
    rs: Seq<RuleModel>,
    r2: Seq<RuleModel>,
    o1: Seq<RuleModel>,
    qs: Seq<RuleModel>,
    q2: Seq<RuleModel>,
    o2: Seq<RuleModel>,
)
    requires
        rs.is_prefix_of(r2),
        r2.is_prefix_of(o1),
        qs.is_prefix_of(q2),
        q2.is_prefix_of(o2),
        alike(r2.skip(rs.len() as int), q2.skip(qs.len() as int)),
        alike(o1.skip(r2.len() as int), o2.skip(q2.len() as int)),
    ensures
        rs.is_prefix_of(o1),
        qs.is_prefix_of(o2),
        alike(o1.skip(rs.len() as int), o2.skip(qs.len() as int)),
{
    let x = o1.skip(rs.len() as int);
    let y = o2.skip(qs.len() as int);
    let d = r2.len() - rs.len();
    assert forall|k: int| 0 <= k < x.len() implies same_but_order(#[trigger] x[k], y[k]) by {
        if k < d {
            assert(x[k] == r2.skip(rs.len() as int)[k]);
            assert(y[k] == q2.skip(qs.len() as int)[k]);
        } else {
            assert(x[k] == o1.skip(r2.len() as int)[k - d]);
            assert(y[k] == o2.skip(q2.len() as int)[k - d]);
        }
    }
    assert(rs =~= o1.subrange(0, rs.len() as int)) by {
        assert forall|k: int| 0 <= k < rs.len() implies rs[k] == o1[k] by {
            assert(rs[k] == r2[k]);
        }
    }
    assert(qs =~= o2.subrange(0, qs.len() as int)) by {
        assert forall|k: int| 0 <= k < qs.len() implies qs[k] == o2[k] by {
            assert(qs[k] == q2[k]);
        }
    }
}

proof fn lemma_push_rule_alike(
    rs: Seq<RuleModel>,
    qs: Seq<RuleModel>,
    p: u32,
    negated: bool,
    recursive: bool,
    text: Seq<char>,
)
    ensures
        (push_rule(rs, p, negated, recursive, text) is Ok) == (push_rule(
            qs,
            p,
            negated,
            recursive,
            text,
        ) is Ok),
        push_rule(rs, p, negated, recursive, text) matches Ok(o1) ==> push_rule(
            qs,
            p,
            negated,
            recursive,
            text,
        ) matches Ok(o2) && rs.is_prefix_of(o1) && qs.is_prefix_of(o2) && alike(
            o1.skip(rs.len() as int),
            o2.skip(qs.len() as int),
        ),
{
    if let Ok(o1) = push_rule(rs, p, negated, recursive, text) {
        let o2 = push_rule(qs, p, negated, recursive, text)->Ok_0;
        assert(rs =~= o1.subrange(0, rs.len() as int));
        assert(qs =~= o2.subrange(0, qs.len() as int));
        assert(o1.skip(rs.len() as int)[0] == o1[rs.len() as int]);
        assert(o2.skip(qs.len() as int)[0] == o2[qs.len() as int]);
    }
}

proof fn lemma_push_parents_alike(
    rs: Seq<RuleModel>,
    qs: Seq<RuleModel>,
    p: u32,
    parts: Seq<Seq<char>>,
    cur: Seq<char>,
)
    ensures
        (push_parents(rs, p, parts, cur) is Ok) == (push_parents(qs, p, parts, cur) is Ok),
        push_parents(rs, p, parts, cur) matches Ok(o1) ==> push_parents(
            qs,
            p,
            parts,
            cur,
        ) matches Ok(o2) && rs.is_prefix_of(o1) && qs.is_prefix_of(o2) && alike(
            o1.skip(rs.len() as int),
            o2.skip(qs.len() as int),
        ),
    decreases parts.len(),
{
    if parts.len() > 1 {
        let next = cur + parts[0] + seq!['/'];
        lemma_push_rule_alike(rs, qs, p, true, false, next);
        if let Ok(r2) = push_rule(rs, p, true, false, next) {
            let q2 = push_rule(qs, p, true, false, next)->Ok_0;
            lemma_push_parents_alike(r2, q2, p, parts.skip(1), next);
            if let Ok(o1) = push_parents(r2, p, parts.skip(1), next) {
                let o2 = push_parents(q2, p, parts.skip(1), next)->Ok_0;
                lemma_alike_chain(rs, r2, o1, qs, q2, o2);
            }
        }
    } else {
        assert(rs =~= rs.subrange(0, rs.len() as int));
        assert(qs =~= qs.subrange(0, qs.len() as int));
    }
}

/// What a line adds does not depend on the rules before it, but for where
/// its rules are defined.
proof fn lemma_entry_rules_alike(rs: Seq<RuleModel>, qs: Seq<RuleModel>, e: EntryModel)
    ensures
        (entry_rules(rs, e) is Ok) == (entry_rules(qs, e) is Ok),
        entry_rules(rs, e) matches Ok(o1) ==> entry_rules(qs, e) matches Ok(o2) && rs.is_prefix_of(
            o1,
        ) && qs.is_prefix_of(o2) && alike(o1.skip(rs.len() as int), o2.skip(qs.len() as int)),
{
    match e {
        EntryModel::Pattern { directives, negated, glob } => {
            if let Ok(p) = pattern_priority(directives, default_priority(glob)) {
                if !negated {
                    lemma_push_rule_alike(rs, qs, p, false, false, glob);
                } else if glob.len() > 0 && glob[0] == '/' {
                    let parts = crate::rules::path_parts(glob);
                    lemma_push_rule_alike(rs, qs, p, true, false, seq!['/']);
                    if let Ok(r1) = push_rule(rs, p, true, false, seq!['/']) {
                        let q1 = push_rule(qs, p, true, false, seq!['/'])->Ok_0;
                        lemma_push_parents_alike(r1, q1, p, parts, seq!['/']);
                        if let Ok(r2) = push_parents(r1, p, parts, seq!['/']) {
                            let q2 = push_parents(q1, p, parts, seq!['/'])->Ok_0;
                            lemma_alike_chain(rs, r1, r2, qs, q1, q2);
                            let rec = glob.last() == '/';
                            lemma_push_rule_alike(r2, q2, p, true, rec, glob);
                            if let Ok(o1) = push_rule(r2, p, true, rec, glob) {
                                let o2 = push_rule(q2, p, true, rec, glob)->Ok_0;
                                lemma_alike_chain(rs, r2, o1, qs, q2, o2);
                            }
                        }
                    }
                }
            }
        },
        EntryModel::Directives(_) => {},
        _ => {
            assert(rs =~= rs.subrange(0, rs.len() as int));
            assert(qs =~= qs.subrange(0, qs.len() as int));
        },
    }
}

proof fn lemma_build_from_alike(rs: Seq<RuleModel>, qs: Seq<RuleModel>, c: Seq<EntryModel>)
    ensures
        (build_from(rs, c) is Ok) == (build_from(qs, c) is Ok),
        build_from(rs, c) matches Ok(o1) ==> build_from(qs, c) matches Ok(o2) && rs.is_prefix_of(
            o1,
        ) && qs.is_prefix_of(o2) && alike(o1.skip(rs.len() as int), o2.skip(qs.len() as int)),
    decreases c.len(),
{
    if c.len() == 0 {
        assert(rs =~= rs.subrange(0, rs.len() as int));
        assert(qs =~= qs.subrange(0, qs.len() as int));
    } else {
        lemma_build_from_alike(rs, qs, c.drop_last());
        if let Ok(r2) = build_from(rs, c.drop_last()) {
            let q2 = build_from(qs, c.drop_last())->Ok_0;
            lemma_entry_rules_alike(r2, q2, c.last());
            if let Ok(o1) = entry_rules(r2, c.last()) {
                let o2 = entry_rules(q2, c.last())->Ok_0;
                lemma_alike_chain(rs, r2, o1, qs, q2, o2);
            }
        }
    }
}

/// The rules of `a, e1, e2, b` and of `a, e2, e1, b`, block by block: the
/// rules of `a`, those of the two swapped lines, and those of `b`.
proof fn lemma_swap_blocks(a: Seq<EntryModel>, e1: EntryModel, e2: EntryModel, b: Seq<EntryModel>) -> (
    ns: (int, int, int))
    requires
        build_rules(a + seq![e1, e2] + b) is Ok,
        line_priority(e1) is Some,
        line_priority(e2) is Some,
    ensures
        build_rules(a + seq![e2, e1] + b) is Ok,
        ({
            let l1 = build_rules(a + seq![e1, e2] + b)->Ok_0;
            let l2 = build_rules(a + seq![e2, e1] + b)->Ok_0;
            let (n, n1, n2) = ns;
            let t = n + n1 + n2;
            &&& 0 <= n && 0 <= n1 && 0 <= n2 && t <= l1.len()
            &&& l1.len() == l2.len()
            &&& forall|i: int| 0 <= i < n ==> #[trigger] l1[i] == l2[i]
            &&& alike(l1.subrange(n, n + n1), l2.subrange(n + n2, t))
            &&& alike(l1.subrange(n + n1, t), l2.subrange(n, n + n2))
            &&& alike(l1.skip(t), l2.skip(t))
            &&& forall|i: int| n <= i < n + n1 ==> #[trigger] l1[i].priority == line_priority(
                e1,
            )->Some_0
            &&& forall|i: int| n + n1 <= i < t ==> #[trigger] l1[i].priority == line_priority(
                e2,
            )->Some_0
        }),
{
    let c12 = seq![e1, e2];
    let c21 = seq![e2, e1];
    let empty = Seq::<RuleModel>::empty();
    lemma_build_rules_from_empty(a + c12 + b);
    lemma_build_rules_from_empty(a + c21 + b);
    lemma_build_from_concat(empty, a + c12, b);
    lemma_build_from_concat(empty, a + c21, b);
    lemma_build_from_concat(empty, a, c12);
    lemma_build_from_concat(empty, a, c21);
    let r = build_from(empty, a)->Ok_0;
    assert(c12.drop_last() =~= seq![e1]);
    assert(c21.drop_last() =~= seq![e2]);
    assert(seq![e1].drop_last() =~= Seq::<EntryModel>::empty());
    assert(seq![e2].drop_last() =~= Seq::<EntryModel>::empty());
    assert(build_from(r, Seq::<EntryModel>::empty()) == Ok::<Seq<RuleModel>, ErrorModel>(r));
    assert(build_from(r, seq![e1]) == entry_rules(r, e1));
    assert(build_from(r, seq![e2]) == entry_rules(r, e2));
    assert(c12.last() == e2 && c21.last() == e1);
    let o1 = entry_rules(r, e1)->Ok_0;
    let m1 = entry_rules(o1, e2)->Ok_0;
    lemma_entry_rules_alike(r, r, e1);
    lemma_entry_rules_alike(o1, r, e2);
    let o2 = entry_rules(r, e2)->Ok_0;
    lemma_entry_rules_alike(r, o2, e1);
    let m2 = entry_rules(o2, e1)->Ok_0;
    assert(build_from(r, c12) == Ok::<Seq<RuleModel>, ErrorModel>(m1));
    assert(build_from(r, c21) == Ok::<Seq<RuleModel>, ErrorModel>(m2));
    lemma_build_from_alike(m1, m2, b);
    let l1 = build_from(m1, b)->Ok_0;
    let l2 = build_from(m2, b)->Ok_0;
    assert(build_rules(a + c12 + b) == Ok::<Seq<RuleModel>, ErrorModel>(l1));
    assert(build_rules(a + c21 + b) == Ok::<Seq<RuleModel>, ErrorModel>(l2));
    let p1 = line_priority(e1)->Some_0;
    let p2 = line_priority(e2)->Some_0;
    if let EntryModel::Pattern { directives, negated, glob } = e1 {
        law_pattern_rules_extend(r, p1, negated, glob);
    }
    if let EntryModel::Pattern { directives, negated, glob } = e2 {
        law_pattern_rules_extend(o1, p2, negated, glob);
    }
    let n = r.len() as int;
    let n1 = o1.len() - n;
    let n2 = m1.len() - o1.len();
    let t = m1.len() as int;
    assert forall|i: int| 0 <= i < n implies #[trigger] l1[i] == l2[i] by {
        assert(l1[i] == m1[i] && m1[i] == o1[i] && o1[i] == r[i]);
        assert(l2[i] == m2[i] && m2[i] == o2[i] && o2[i] == r[i]);
    }
    assert(l1.subrange(n, n + n1) =~= o1.skip(n)) by {
        assert forall|i: int| n <= i < n + n1 implies l1[i] == o1[i] by {
            assert(l1[i] == m1[i]);
        }
    }
    assert(l2.subrange(n + n2, t) =~= m2.skip(o2.len() as int)) by {
        assert forall|i: int| n + n2 <= i < t implies l2[i] == m2[i] by {}
    }
    assert(l1.subrange(n + n1, t) =~= m1.skip(o1.len() as int)) by {
        assert forall|i: int| n + n1 <= i < t implies l1[i] == m1[i] by {}
    }
    assert(l2.subrange(n, n + n2) =~= o2.skip(n)) by {
        assert forall|i: int| n <= i < n + n2 implies l2[i] == o2[i] by {
            assert(l2[i] == m2[i]);
        }
    }
    assert forall|i: int| n <= i < n + n1 implies #[trigger] l1[i].priority == p1 by {
        assert(l1[i] == m1[i] && m1[i] == o1[i]);
    }
    assert forall|i: int| n + n1 <= i < t implies #[trigger] l1[i].priority == p2 by {
        assert(l1[i] == m1[i]);
    }
    (n, n1, n2)
}

/// Swapping two adjacent pattern lines of different priority keeps the file
/// loading and keeps every decision: the order of lines matters only between
/// rules of equal priority.
pub proof fn law_swapping_lines_of_distinct_priority(
    a: Seq<EntryModel>,
    e1: EntryModel,
    e2: EntryModel,
    b: Seq<EntryModel>,
    path: Seq<char>,
)
    requires
        build_rules(a + seq![e1, e2] + b) is Ok,
        line_priority(e1) is Some,
        line_priority(e2) is Some,
        line_priority(e1) != line_priority(e2),
    ensures
        build_rules(a + seq![e2, e1] + b) is Ok,
        excluded(build_rules(a + seq![e1, e2] + b)->Ok_0, path) == excluded(
            build_rules(a + seq![e2, e1] + b)->Ok_0,
            path,
        ),
{
    let (n, n1, n2) = lemma_swap_blocks(a, e1, e2, b);
    let l1 = build_rules(a + seq![e1, e2] + b)->Ok_0;
    let l2 = build_rules(a + seq![e2, e1] + b)->Ok_0;
    crate::rules::lemma_build_rules_numbered(a + seq![e1, e2] + b);
    crate::rules::lemma_build_rules_numbered(a + seq![e2, e1] + b);
    lemma_swapped_blocks_decide_alike(
        l1,
        l2,
        n,
        n1,
        n2,
        line_priority(e1)->Some_0,
        line_priority(e2)->Some_0,
        path,
    );
}

proof fn lemma_swapped_blocks_decide_alike(
    l1: Seq<RuleModel>,
    l2: Seq<RuleModel>,
    n: int,
    n1: int,
    n2: int,
    p1: u32,
    p2: u32,
    path: Seq<char>,
)
    requires
        p1 != p2,
        numbered(l1),
        numbered(l2),
        0 <= n && 0 <= n1 && 0 <= n2 && n + n1 + n2 <= l1.len(),
        l1.len() == l2.len(),
        forall|i: int| 0 <= i < n ==> #[trigger] l1[i] == l2[i],
        alike(l1.subrange(n, n + n1), l2.subrange(n + n2, n + n1 + n2)),
        alike(l1.subrange(n + n1, n + n1 + n2), l2.subrange(n, n + n2)),
        alike(l1.skip(n + n1 + n2), l2.skip(n + n1 + n2)),
        forall|i: int| n <= i < n + n1 ==> #[trigger] l1[i].priority == p1,
        forall|i: int| n + n1 <= i < n + n1 + n2 ==> #[trigger] l1[i].priority == p2,
    ensures
        excluded(l1, path) == excluded(l2, path),
{
    let t = n + n1 + n2;
    let to_b = Seq::new(
        l1.len(),
        |i: int|
            if i < n {
                i
            } else if i < n + n1 {
                i + n2
            } else if i < t {
                i - n1
            } else {
                i
            },
    );
    let to_a = Seq::new(
        l2.len(),
        |k: int|
            if k < n {
                k
            } else if k < n + n2 {
                k + n1
            } else if k < t {
                k - n2
            } else {
                k
            },
    );
    assert forall|i: int| 0 <= i < l1.len() implies 0 <= #[trigger] to_b[i] < l2.len() && to_a[to_b[i]]
        == i && same_but_order(l1[i], l2[to_b[i]]) by {
        if i < n {
            assert(l1[i] == l2[i]);
        } else if i < n + n1 {
            assert(l1[i] == l1.subrange(n, n + n1)[i - n]);
            assert(l2[i + n2] == l2.subrange(n + n2, t)[i - n]);
        } else if i < t {
            assert(l1[i] == l1.subrange(n + n1, t)[i - n - n1]);
            assert(l2[i - n1] == l2.subrange(n, n + n2)[i - n - n1]);
        } else {
            assert(l1[i] == l1.skip(t)[i - t]);
            assert(l2[i] == l2.skip(t)[i - t]);
        }
    }
    assert forall|k: int| 0 <= k < l2.len() implies 0 <= #[trigger] to_a[k] < l1.len() && to_b[to_a[k]]
        == k by {}
    assert forall|i: int, j: int|
        0 <= i < l1.len() && 0 <= j < l1.len() && l1[i].priority == l1[j].priority implies (
        #[trigger] l1[i].order >= #[trigger] l1[j].order <==> l2[to_b[i]].order >= l2[to_b[j]].order) by {
        assert(l1[i].order == i && l1[j].order == j);
        assert(l2[to_b[i]].order == to_b[i] && l2[to_b[j]].order == to_b[j]);
        if n <= i < n + n1 && n + n1 <= j < t {
            assert(l1[i].priority == p1);
            assert(l1[j].priority == p2);
        }
        if n <= j < n + n1 && n + n1 <= i < t {
            assert(l1[j].priority == p1);
            assert(l1[i].priority == p2);
        }
    }
    law_decision_depends_on_priority_then_definition_order(l1, l2, to_b, to_a, path);
}


// ---------------------------------------------------------------------------
// Blank and comment lines
/// A line that reads as blank or as a comment.
pub open spec fn is_blank_or_comment_line(l: Seq<char>) -> bool {
    ||| parse_line(l) == Ok::<EntryModel, int>(EntryModel::Blank)
    ||| parse_line(l) == Ok::<EntryModel, int>(EntryModel::Comment)
}

/// The lines of `ls` that are neither blank nor comments, in order.
pub open spec fn significant_lines(ls: Seq<Seq<char>>) -> Seq<Seq<char>>
    decreases ls.len(),
{
    if ls.len() == 0 {
        seq![]
    } else {
        let r = significant_lines(ls.drop_last());
        if is_blank_or_comment_line(ls.last()) {
            r
        } else {
            r.push(ls.last())
        }
    }
}

/// The entries of `es` that are neither blank nor comments, in order.
pub open spec fn significant_entries(es: Seq<EntryModel>) -> Seq<EntryModel>
    decreases es.len(),
{
    if es.len() == 0 {
        seq![]
    } else {
        let r = significant_entries(es.drop_last());
        if es.last() is Blank || es.last() is Comment {
            r
        } else {
            r.push(es.last())
        }
    }
}

proof fn lemma_parse_significant_lines(ls: Seq<Seq<char>>)
    ensures
        (parse_lines(ls) is Ok) == (parse_lines(significant_lines(ls)) is Ok),
        parse_lines(ls) matches Ok(es) ==> parse_lines(significant_lines(ls)) == Ok::<
            Seq<EntryModel>,
            (int, int),
        >(significant_entries(es)),
    decreases ls.len(),
{
    if ls.len() > 0 {
        let init = ls.drop_last();
        lemma_parse_significant_lines(init);
        let r = significant_lines(init);
        let l = ls.last();
        if !is_blank_or_comment_line(l) {
            assert(r.push(l).drop_last() =~= r);
        }
        if let Ok(es0) = parse_lines(init) {
            if let Ok(e) = parse_line(l) {
                assert(es0.push(e).drop_last() =~= es0);
            }
        }
    }
}

proof fn lemma_build_significant_entries(es: Seq<EntryModel>)
    ensures
        build_rules(es) == build_rules(significant_entries(es)),
    decreases es.len(),
{
    if es.len() > 0 {
        let init = es.drop_last();
        lemma_build_significant_entries(init);
        let r = significant_entries(init);
        if !(es.last() is Blank || es.last() is Comment) {
            assert(r.push(es.last()).drop_last() =~= r);
        }
    }
}

/// Blank lines and comment lines play no part: two texts whose other lines
/// are the same, in the same order, either both load, with the same rules,
/// or both fail. So any number of blank or comment lines may be added or
/// taken out anywhere.
pub proof fn law_blank_and_comment_lines_are_ignored(s1: Seq<char>, s2: Seq<char>)
    requires
        significant_lines(file_lines(s1)) == significant_lines(file_lines(s2)),
    ensures
        (filter_rules(s1) is Ok) == (filter_rules(s2) is Ok),
        filter_rules(s1) is Ok ==> filter_rules(s1) == filter_rules(s2),
{
    lemma_parse_significant_lines(file_lines(s1));
    lemma_parse_significant_lines(file_lines(s2));
    if let Ok(es1) = parse_lines(file_lines(s1)) {
        let es2 = parse_lines(file_lines(s2))->Ok_0;
        lemma_build_significant_entries(es1);
        lemma_build_significant_entries(es2);
    }
}

// ---------------------------------------------------------------------------
// Reordering lines freely
/// Whether two adjacent lines may trade places without changing any
/// decision: one of them adds no rules, or both are pattern lines of
/// different priority.
pub open spec fn swappable(x: EntryModel, y: EntryModel) -> bool {
    ||| x is Blank || x is Comment
    ||| y is Blank || y is Comment
    ||| line_priority(x) is Some && line_priority(y) is Some && line_priority(x) != line_priority(y)
}

/// The pattern lines among `es` have pairwise distinct priorities.
pub open spec fn distinct_line_priorities(es: Seq<EntryModel>) -> bool {
    forall|i: int, k: int|
        0 <= i < k < es.len() && es[i] is Pattern && es[k] is Pattern ==> line_priority(
            #[trigger] es[i],
        ) != line_priority(#[trigger] es[k])
}

/// The entries of a file that loads are blank lines, comments and pattern
/// lines with valid directives.
proof fn lemma_loaded_entries(es: Seq<EntryModel>)
    requires
        build_rules(es) is Ok,
    ensures
        forall|i: int|
            0 <= i < es.len() ==> (#[trigger] es[i] is Blank || es[i] is Comment || (es[i] is Pattern
                && line_priority(es[i]) is Some)),
    decreases es.len(),
{
    if es.len() > 0 {
        let init = es.drop_last();
        lemma_loaded_entries(init);
        assert forall|i: int| 0 <= i < es.len() implies (#[trigger] es[i] is Blank || es[i] is Comment
            || (es[i] is Pattern && line_priority(es[i]) is Some)) by {
            if i < init.len() {
                assert(es[i] == init[i]);
            }
        }
    }
}

proof fn lemma_swap_adjacent(
    a: Seq<EntryModel>,
    x: EntryModel,
    y: EntryModel,
    b: Seq<EntryModel>,
    path: Seq<char>,
)
    requires
        build_rules(a + seq![x, y] + b) is Ok,
        swappable(x, y),
    ensures
        build_rules(a + seq![y, x] + b) is Ok,
        excluded(build_rules(a + seq![x, y] + b)->Ok_0, path) == excluded(
            build_rules(a + seq![y, x] + b)->Ok_0,
            path,
        ),
{
    if x is Blank || x is Comment {
        assert(a + seq![x, y] + b =~= a + seq![x] + (seq![y] + b));
        law_blank_or_comment_entry_anywhere(a, x, seq![y] + b);
        assert(a + seq![y, x] + b =~= (a + seq![y]) + seq![x] + b);
        law_blank_or_comment_entry_anywhere(a + seq![y], x, b);
        assert(a + (seq![y] + b) =~= (a + seq![y]) + b);
    } else if y is Blank || y is Comment {
        assert(a + seq![x, y] + b =~= (a + seq![x]) + seq![y] + b);
        law_blank_or_comment_entry_anywhere(a + seq![x], y, b);
        assert(a + seq![y, x] + b =~= a + seq![y] + (seq![x] + b));
        law_blank_or_comment_entry_anywhere(a, y, seq![x] + b);
        assert(a + (seq![x] + b) =~= (a + seq![x]) + b);
    } else {
        law_swapping_lines_of_distinct_priority(a, x, y, b, path);
    }
}

/// Moving the entry at `j` to the front, past entries it may trade places
/// with, one step at a time.
proof fn lemma_move_to_front(a: Seq<EntryModel>, u: Seq<EntryModel>, j: int, path: Seq<char>)
    requires
        0 <= j < u.len(),
        build_rules(a + u) is Ok,
        forall|i: int| 0 <= i < j ==> swappable(#[trigger] u[i], u[j]),
    ensures
        build_rules(a + (seq![u[j]] + u.remove(j))) is Ok,
        excluded(build_rules(a + u)->Ok_0, path) == excluded(
            build_rules(a + (seq![u[j]] + u.remove(j)))->Ok_0,
            path,
        ),
    decreases j,
{
    if j == 0 {
        assert(seq![u[0]] + u.remove(0) =~= u);
    } else {
        let x = u[j - 1];
        let y = u[j];
        let w = u.update(j - 1, y).update(j, x);
        let pre = a + u.take(j - 1);
        let post = u.skip(j + 1);
        assert(a + u =~= pre + seq![x, y] + post);
        assert(a + w =~= pre + seq![y, x] + post);
        assert(swappable(u[j - 1], u[j]));
        lemma_swap_adjacent(pre, x, y, post, path);
        assert forall|i: int| 0 <= i < j - 1 implies swappable(#[trigger] w[i], w[j - 1]) by {
            assert(w[i] == u[i]);
            assert(swappable(u[i], u[j]));
        }
        lemma_move_to_front(a, w, j - 1, path);
        assert(w[j - 1] == y);
        assert(w.remove(j - 1) =~= u.remove(j));
    }
}

proof fn lemma_reorder(a: Seq<EntryModel>, u: Seq<EntryModel>, v: Seq<EntryModel>, path: Seq<char>)
    requires
        u.to_multiset() == v.to_multiset(),
        build_rules(a + u) is Ok,
        forall|i: int, k: int| 0 <= i < k < u.len() ==> swappable(#[trigger] u[i], #[trigger] u[k]),
    ensures
        build_rules(a + v) is Ok,
        excluded(build_rules(a + u)->Ok_0, path) == excluded(build_rules(a + v)->Ok_0, path),
    decreases u.len(),
{
    broadcast use vstd::seq_lib::group_to_multiset_ensures;

    if u.len() == 0 {
        assert(v.len() == v.to_multiset().len());
        assert(u =~= v);
    } else {
        assert(v.len() == v.to_multiset().len());
        let x = v[0];
        assert(v.contains(x));
        assert(v.to_multiset().count(x) > 0);
        assert(u.contains(x));
        let j = choose|j: int| 0 <= j < u.len() && u[j] == x;
        assert forall|i: int| 0 <= i < j implies swappable(#[trigger] u[i], u[j]) by {}
        lemma_move_to_front(a, u, j, path);
        let rest = u.remove(j);
        let a2 = a + seq![x];
        assert(a + (seq![u[j]] + rest) =~= a2 + rest);
        assert(rest.to_multiset() == u.to_multiset().remove(x));
        assert(v.remove(0).to_multiset() == v.to_multiset().remove(x));
        assert forall|i: int, k: int| 0 <= i < k < rest.len() implies swappable(
            #[trigger] rest[i],
            #[trigger] rest[k],
        ) by {
            let i2 = if i < j {
                i
            } else {
                i + 1
            };
            let k2 = if k < j {
                k
            } else {
                k + 1
            };
            assert(rest[i] == u[i2]);
            assert(rest[k] == u[k2]);
            assert(swappable(u[i2], u[k2]));
        }
        lemma_reorder(a2, rest, v.remove(0), path);
        assert(a2 + v.remove(0) =~= a + v);
    }
}

/// Reordering the entries of a file whose pattern lines have pairwise
/// distinct priorities keeps it loading and keeps every decision.
pub proof fn law_reordering_entries_of_distinct_priorities(
    es1: Seq<EntryModel>,
    es2: Seq<EntryModel>,
    path: Seq<char>,
)
    requires
        build_rules(es1) is Ok,
        es1.to_multiset() == es2.to_multiset(),
        distinct_line_priorities(es1),
    ensures
        build_rules(es2) is Ok,
        excluded(build_rules(es1)->Ok_0, path) == excluded(build_rules(es2)->Ok_0, path),
{
    lemma_loaded_entries(es1);
    assert forall|i: int, k: int| 0 <= i < k < es1.len() implies swappable(
        #[trigger] es1[i],
        #[trigger] es1[k],
    ) by {
        if es1[i] is Pattern && es1[k] is Pattern {
            assert(line_priority(es1[i]) != line_priority(es1[k]));
        }
    }
    let empty = Seq::<EntryModel>::empty();
    assert(empty + es1 =~= es1);
    assert(empty + es2 =~= es2);
    lemma_reorder(empty, es1, es2, path);
}

/// Lines that are a reordering of lines that all parse all parse too, to a
/// reordering of the same entries.
proof fn lemma_reordered_lines_parse(u: Seq<Seq<char>>, v: Seq<Seq<char>>)
    requires
        u.to_multiset() == v.to_multiset(),
        parse_lines(u) is Ok,
    ensures
        parse_lines(v) is Ok,
        (parse_lines(u)->Ok_0).to_multiset() == (parse_lines(v)->Ok_0).to_multiset(),
    decreases v.len(),
{
    broadcast use vstd::seq_lib::group_to_multiset_ensures, vstd::multiset::group_multiset_axioms;

    assert(u.len() == u.to_multiset().len());
    assert(v.len() == v.to_multiset().len());
    if v.len() == 0 {
        assert(u =~= v);
    } else {
        let vi = v.drop_last();
        let y = v.last();
        assert(v =~= vi.push(y));
        assert(v.to_multiset() =~= vi.to_multiset().insert(y));
        assert(v.contains(y));
        assert(v.to_multiset().count(y) > 0);
        assert(u.to_multiset().count(y) > 0);
        assert(u.contains(y));
        let j = choose|j: int| 0 <= j < u.len() && u[j] == y;
        let ur = u.remove(j);
        assert(ur.to_multiset() =~= u.to_multiset().remove(y));
        assert(ur.to_multiset() =~= vi.to_multiset());
        law_one_entry_per_line(u);
        let eu = parse_lines(u)->Ok_0;
        assert forall|i: int| 0 <= i < ur.len() implies #[trigger] parse_line(ur[i]) is Ok by {
            if i < j {
                assert(ur[i] == u[i]);
            } else {
                assert(ur[i] == u[i + 1]);
            }
        }
        law_one_entry_per_line(ur);
        lemma_reordered_lines_parse(ur, vi);
        let er = parse_lines(ur)->Ok_0;
        let evi = parse_lines(vi)->Ok_0;
        assert(parse_line(u[j]) == Ok::<EntryModel, int>(eu[j]));
        let e = eu[j];
        assert(parse_lines(v) == Ok::<Seq<EntryModel>, (int, int)>(evi.push(e)));
        assert(er =~= eu.remove(j)) by {
            assert forall|i: int| 0 <= i < er.len() implies #[trigger] er[i] == eu.remove(j)[i] by {
                assert(parse_line(ur[i]) == Ok::<EntryModel, int>(er[i]));
                if i < j {
                    assert(ur[i] == u[i]);
                    assert(parse_line(u[i]) == Ok::<EntryModel, int>(eu[i]));
                } else {
                    assert(ur[i] == u[i + 1]);
                    assert(parse_line(u[i + 1]) == Ok::<EntryModel, int>(eu[i + 1]));
                }
            }
        }
        assert(er.to_multiset() =~= eu.to_multiset().remove(e));
        assert(evi.push(e).to_multiset() =~= evi.to_multiset().insert(e));
        assert(eu.contains(e));
        assert(eu.to_multiset().count(e) > 0);
        assert(eu.to_multiset() =~= eu.to_multiset().remove(e).insert(e));
    }
}

/// Reordering the lines of a text whose pattern lines have pairwise distinct
/// priorities (an explicit `@priority`, else the pattern's length) keeps it
/// loading and keeps every decision: the order of lines matters only between
/// rules of equal priority.
pub proof fn law_reordering_lines_of_distinct_priorities(s1: Seq<char>, s2: Seq<char>, path: Seq<char>)
    requires
        filter_rules(s1) is Ok,
        file_lines(s1).to_multiset() == file_lines(s2).to_multiset(),
        distinct_line_priorities(parse_lines(file_lines(s1))->Ok_0),
    ensures
        filter_rules(s2) is Ok,
        excluded(filter_rules(s1)->Ok_0, path) == excluded(filter_rules(s2)->Ok_0, path),
{
    lemma_reordered_lines_parse(file_lines(s1), file_lines(s2));
    law_reordering_entries_of_distinct_priorities(
        parse_lines(file_lines(s1))->Ok_0,
        parse_lines(file_lines(s2))->Ok_0,
        path,
    );
}

} // verus!
