//! Matching paths against the rules of a pathfilter.
use vstd::prelude::*;

use crate::error::{Error, ErrorModel};
use crate::grammar::EntryModel;
use crate::number::parse_u32_chars;
use crate::parser::{directives_model, entries_model, parse_input, Directive, PatternFileEntry};
use crate::pattern::{has_no_wildcards, CompiledPattern};
use crate::rules;
use crate::rules::{
    applies, build_rules, decides, default_priority, excluded, filter_rules, has_recursive_part,
    in_evaluation_order, lemma_build_rules_error_stays, lemma_build_rules_numbered,
    lemma_same_rules_same_decision, outranks, path_parts, pattern_rules, push_parents,
    ranks_before, rule_matches, same_rules, glob_at, is_anchored, matches_dir_at,
    matches_enclosing_dir, names_path,
    pattern_matches, starts_component, slash_end, split_from, strip_leading_slashes,
    strip_trailing_slashes, RuleModel,
};
use crate::text::{chars_of, push_char, push_range, string_of, subvec};

verus! {

/// One rule of a filter, with its compiled glob pattern.
#[derive(Debug)]
struct Rule {
    order: usize,
    priority: u32,
    negated: bool,
    recursive: bool,
    pattern: CompiledPattern,
}

impl View for Rule {
    type V = RuleModel;

    closed spec fn view(&self) -> RuleModel {
        RuleModel {
            order: self.order as int,
            priority: self.priority,
            negated: self.negated,
            recursive: self.recursive,
            text: self.pattern@,
        }
    }
}

spec fn rules_model(rs: Seq<Rule>) -> Seq<RuleModel> {
    rs.map_values(|r: Rule| r@)
}

/// Matches paths against a pathfilter rule set.
///
/// Patterns exclude paths by default; a pattern prefixed with `!` includes
/// matching paths again. Rules are evaluated by priority: the
/// highest-priority matching rule wins, and later rules win when matching
/// rules have the same priority.
#[derive(Debug)]
pub struct PathFilter {
    rules: Vec<Rule>,
}

impl View for PathFilter {
    type V = Seq<RuleModel>;

    /// The rules, in evaluation order.
    closed spec fn view(&self) -> Seq<RuleModel> {
        rules_model(self.rules@)
    }
}

impl PathFilter {
    #[verifier::type_invariant]
    spec fn well_formed(self) -> bool {
        in_evaluation_order(rules_model(self.rules@))
    }
}

/// Appends a rule for `pattern` to `list`, or reports why `glob` refuses the
/// pattern.
fn push_rule(
    list: &mut Vec<Rule>,
    priority: u32,
    negated: bool,
    recursive: bool,
    pattern: &str,
) -> (r: Result<(), Error>)
    ensures
        match rules::push_rule(rules_model(old(list)@), priority, negated, recursive, pattern@) {
            Ok(rs) => r is Ok && rules_model(final(list)@) == rs,
            Err(e) => r matches Err(x) && x@ == e && final(list)@ == old(list)@,
        },
        r is Ok ==> rules_model(final(list)@) == rules_model(old(list)@).push(
            (RuleModel {
                order: old(list)@.len() as int,
                priority,
                negated,
                recursive,
                text: pattern@,
            }),
        ),
{
    match CompiledPattern::compile(pattern) {
        Ok(compiled) => {
            let ghost before = rules_model(list@);
            let order: usize = list.len();
            list.push(Rule { order, priority, negated, recursive, pattern: compiled });
            assert(rules_model(list@) =~= before.push(
                RuleModel {
                    order: before.len() as int,
                    priority,
                    negated,
                    recursive,
                    text: pattern@,
                },
            ));
            Ok(())
        },
        Err(source) => Err(Error::Pattern { pattern: pattern.to_owned(), source }),
    }
}

/// Puts rules defined in order (each rule's `order` is its index) into
/// evaluation order.
fn sort_rules(v: Vec<Rule>) -> (out: Vec<Rule>)
    requires
        forall|k: int| 0 <= k < v.len() ==> #[trigger] rules_model(v@)[k].order == k,
    ensures
        in_evaluation_order(rules_model(out@)),
        same_rules(rules_model(out@), rules_model(v@)),
{
    let ghost orig = rules_model(v@);
    let mut v = v;
    let mut out: Vec<Rule> = Vec::new();
    while v.len() > 0
        invariant
            rules_model(v@) == orig.take(v.len() as int),
            out.len() + v.len() == orig.len(),
            forall|k: int| 0 <= k < orig.len() ==> #[trigger] orig[k].order == k,
            in_evaluation_order(rules_model(out@)),
            forall|j: int|
                0 <= j < out.len() ==> v.len() <= #[trigger] rules_model(out@)[j].order < orig.len()
                    && rules_model(out@)[j] == orig[rules_model(out@)[j].order],
            forall|k: int| v.len() <= k < orig.len() ==> rules_model(out@).contains(#[trigger] orig[k]),
        decreases v.len(),
    {
        let ghost om = rules_model(out@);
        let ghost vm = rules_model(v@);
        let ghost vold = v@;
        let r = v.pop().unwrap();
        assert(r == vold.last());
        assert(vm[vold.len() - 1] == vold[vold.len() - 1]@);
        assert(rules_model(v@) =~= vm.drop_last());
        assert(r@ == orig[v.len() as int]);
        let mut i: usize = 0;
        while i < out.len() && out[i].priority >= r.priority
            invariant
                i <= out.len(),
                om == rules_model(out@),
                forall|j: int| 0 <= j < i ==> #[trigger] om[j].priority >= r.priority,
            decreases out.len() - i,
        {
            i += 1;
        }
        assert forall|j: int| i <= j < om.len() implies #[trigger] om[j].priority < r.priority by {
            if j > i {
                assert(ranks_before(om[i as int], om[j]));
            }
        }
        out.insert(i, r);
        let ghost nm = rules_model(out@);
        assert(nm =~= om.insert(i as int, r@));
        proof {
            om.insert_ensures(i as int, r@);
            assert forall|a: int, b: int| 0 <= a < b < nm.len() implies ranks_before(nm[a], nm[b]) by {
                if b < i {
                } else if b == i {
                } else if a < i {
                    assert(nm[b] == om[b - 1]);
                } else if a == i {
                    assert(nm[b] == om[b - 1]);
                } else {
                    assert(nm[a] == om[a - 1]);
                    assert(nm[b] == om[b - 1]);
                }
            }
            assert forall|j: int| 0 <= j < nm.len() implies v.len() <= #[trigger] nm[j].order
                < orig.len() && nm[j] == orig[nm[j].order] by {
                if j > i {
                    assert(nm[j] == om[j - 1]);
                }
            }
            assert forall|k: int| v.len() <= k < orig.len() implies nm.contains(
                #[trigger] orig[k],
            ) by {
                if k == v.len() {
                    assert(nm[i as int] == orig[k]);
                } else {
                    let m = choose|m: int| 0 <= m < om.len() && om[m] == orig[k];
                    if m < i {
                        assert(nm[m] == orig[k]);
                    } else {
                        assert(nm[m + 1] == orig[k]);
                    }
                }
            }
        }
    }
    proof {
        let om = rules_model(out@);
        assert forall|j: int| 0 <= j < om.len() implies orig.contains(#[trigger] om[j]) by {
            assert(orig[om[j].order] == om[j]);
        }
    }
    out
}

impl Rule {
    /// Whether this rule's pattern matches the whole of `q`, the way the
    /// library asks `glob`.
    fn glob_at(&self, q: &Vec<char>, from: usize, to: usize) -> (b: bool)
        requires
            from <= to <= q.len(),
        ensures
            b == glob_at(self@.text, q@.subrange(from as int, to as int)),
            has_no_wildcards(self@.text) && q@.subrange(from as int, to as int) == self@.text ==> b,
    {
        let s = string_of(q, from, to);
        self.pattern.matches_with(s.as_str(), true, true, false)
    }

    /// Whether this rule's pattern matches `q[..to]` (see [`pattern_matches`]).
    fn pattern_matches(&self, q: &Vec<char>, to: usize) -> (b: bool)
        requires
            to <= q.len(),
        ensures
            b == pattern_matches(self@.text, q@.subrange(0, to as int)),
            is_anchored(self@.text) && has_no_wildcards(self@.text) && q@.subrange(0, to as int)
                == self@.text ==> b,
    {
        let ghost w = q@.subrange(0, to as int);
        let t = chars_of(self.pattern.as_str());
        if t.len() > 0 && t[0] == '/' {
            return self.glob_at(q, 0, to);
        }
        let mut k: usize = 0;
        loop
            invariant
                k <= to <= q.len(),
                w == q@.subrange(0, to as int),
                !is_anchored(self@.text),
                forall|j: int|
                    0 <= j < k ==> !(starts_component(w, j) && #[trigger] glob_at(
                        self@.text,
                        w.skip(j),
                    )),
            decreases to - k,
        {
            if k == 0 || q[k - 1] == '/' {
                assert(w.skip(k as int) =~= q@.subrange(k as int, to as int));
                if self.glob_at(q, k, to) {
                    assert(starts_component(w, k as int));
                    return true;
                }
            }
            if k == to {
                assert forall|j: int|
                    0 <= j <= w.len() && starts_component(w, j) implies !#[trigger] glob_at(
                    self@.text,
                    w.skip(j),
                ) by {
                    if j == k {
                        assert(w.skip(k as int) =~= q@.subrange(k as int, to as int));
                    }
                }
                return false;
            }
            k += 1;
        }
    }

    /// Whether this rule's pattern matches a directory that contains `p`
    /// (see [`matches_enclosing_dir`]).
    fn matches_enclosing_dir(&self, p: &Vec<char>) -> (b: bool)
        ensures
            b == matches_enclosing_dir(self@.text, p@),
    {
        let mut k: usize = 1;
        while k < p.len()
            invariant
                1 <= k,
                forall|j: int| j < k ==> !#[trigger] matches_dir_at(self@.text, p@, j),
            decreases p.len() - k,
        {
            if p[k] == '/' {
                let a = self.pattern_matches(p, k);
                let c = self.pattern_matches(p, k + 1);
                if a || c {
                    assert(matches_dir_at(self@.text, p@, k as int));
                    return true;
                }
            }
            assert(!matches_dir_at(self@.text, p@, k as int));
            k += 1;
        }
        assert(!matches_enclosing_dir(self@.text, p@));
        false
    }

    /// Whether this rule applies to `path`.
    fn matches(&self, path: &str) -> (b: bool)
        ensures
            b == rule_matches(self@, path@),
            names_path(self@, path@) ==> b,
    {
        let chars = chars_of(path);
        let n = chars.len();
        assert(chars@.subrange(0, n as int) =~= path@);
        let direct = self.pattern_matches(&chars, n);
        let mut via_parent = false;
        let mut within = false;
        if !direct && self.negated && n > 0 && chars[n - 1] == '/' {
            assert(chars@.subrange(0, n - 1) =~= path@.drop_last());
            via_parent = self.pattern_matches(&chars, n - 1);
        }
        if !direct && !self.negated {
            within = self.matches_enclosing_dir(&chars);
        }
        rule_applies(
            self.negated,
            self.recursive,
            self.pattern.as_str(),
            path,
            direct,
            via_parent,
            within,
        )
    }
}

/// Whether a rule applies to `path`, given whether its `pattern` matches
/// `path` (`direct`), `path` without its trailing `/` (`via_parent`) and a
/// directory that contains `path` (`within`).
///
/// An exclude rule also applies within a directory it matches. An include
/// (`negated`) rule also applies to a directory path whose name it matches,
/// and a `recursive` include rule whose pattern ends with `/` to every path
/// that starts with the pattern.
pub fn rule_applies(
    negated: bool,
    recursive: bool,
    pattern: &str,
    path: &str,
    direct: bool,
    via_parent: bool,
    within: bool,
) -> (b: bool)
    ensures
        b == applies(
            RuleModel { order: 0, priority: 0, negated, recursive, text: pattern@ },
            path@,
            direct,
            via_parent,
            within,
        ),
{
    if direct {
        return true;
    }
    if !negated {
        return within;
    }
    if via_parent {
        return true;
    }
    if !recursive {
        return false;
    }
    let t = chars_of(pattern);
    let p = chars_of(path);
    if t.len() == 0 || t[t.len() - 1] != '/' || t.len() > p.len() {
        return false;
    }
    let mut i: usize = 0;
    while i < t.len()
        invariant
            i <= t.len() <= p.len(),
            t@ == pattern@,
            p@ == path@,
            !direct && negated && !via_parent && recursive,
            forall|j: int| 0 <= j < i ==> t@[j] == p@[j],
        decreases t.len() - i,
    {
        if t[i] != p[i] {
            assert(p@.subrange(0, t@.len() as int)[i as int] != t@[i as int]);
            return false;
        }
        i += 1;
    }
    assert(t@ =~= p@.subrange(0, t@.len() as int));
    true
}

impl PathFilter {
    /// Returns whether `path` is excluded by this filter.
    ///
    /// `true` means excluded; `false` means included, or that the path (a
    /// directory, written with a trailing `/`) may contain included
    /// descendants. The decision is that of the highest-priority rule that
    /// applies, the later one among equals; a path no rule applies to is
    /// included.
    pub fn matches(&self, path: &str) -> (b: bool)
        ensures
            b == excluded(self@, path@),
            (exists|i: int|
                0 <= i < self@.len() && #[trigger] names_path(self@[i], path@) && self@[i].negated
                    && forall|j: int|
                    0 <= j < self@.len() && !(#[trigger] self@[j]).negated ==> self@[j].priority
                        < self@[i].priority) ==> !b,
    {
        proof {
            use_type_invariant(self);
        }
        let ghost rs = self@;
        let mut i: usize = 0;
        while i < self.rules.len()
            invariant
                i <= self.rules.len(),
                rs == rules_model(self.rules@),
                in_evaluation_order(rs),
                forall|j: int| 0 <= j < i ==> !#[trigger] rule_matches(rs[j], path@),
                forall|j: int| 0 <= j < i ==> !#[trigger] names_path(rs[j], path@),
            decreases self.rules.len() - i,
        {
            if self.rules[i].matches(path) {
                proof {
                    assert forall|j: int|
                        0 <= j < rs.len() && #[trigger] rule_matches(rs[j], path@) implies outranks(
                        rs[i as int],
                        rs[j],
                    ) by {
                        if j > i {
                            assert(ranks_before(rs[i as int], rs[j]));
                        }
                    }
                    assert(decides(rs, path@, i as int));
                    if exists|w: int|
                        0 <= w < rs.len() && #[trigger] names_path(rs[w], path@) && rs[w].negated
                            && forall|j: int|
                            0 <= j < rs.len() && !(#[trigger] rs[j]).negated ==> rs[j].priority
                                < rs[w].priority {
                        let w = choose|w: int|
                            0 <= w < rs.len() && #[trigger] names_path(rs[w], path@) && rs[w].negated
                                && forall|j: int|
                                0 <= j < rs.len() && !(#[trigger] rs[j]).negated ==> rs[j].priority
                                    < rs[w].priority;
                        if w > i {
                            assert(ranks_before(rs[i as int], rs[w]));
                        }
                        assert(rs[i as int].negated);
                    }
                    if excluded(rs, path@) {
                        let k = choose|k: int| decides(rs, path@, k) && !rs[k].negated;
                        if k != i {
                            assert(outranks(rs[k], rs[i as int]));
                            if k < i {
                                assert(ranks_before(rs[k], rs[i as int]));
                            } else {
                                assert(ranks_before(rs[i as int], rs[k]));
                            }
                        }
                    }
                }
                return !self.rules[i].negated;
            }
            i += 1;
        }
        false
    }
}

// ---------------------------------------------------------------------------
// Building a filter
/// The priority of a pattern line: the UTF-8 length of `glob`, replaced by
/// the value of each `priority` directive in turn.
fn pattern_priority(directives: &Vec<Directive>, glob: &String) -> (r: Result<u32, Error>)
    ensures
        match rules::pattern_priority(directives_model(directives@), default_priority(glob@)) {
            Ok(p) => r matches Ok(q) && q == p,
            Err(e) => r matches Err(x) && x@ == e,
        },
{
    let ghost dm = directives_model(directives@);
    let mut priority: u32 = glob.as_str().len() as u32;
    let key = "priority".to_owned();
    let mut j: usize = 0;
    assert(dm.skip(0) =~= dm);
    while j < directives.len()
        invariant
            j <= directives.len(),
            dm == directives_model(directives@),
            key@ == "priority"@,
            rules::pattern_priority(dm, default_priority(glob@)) == rules::pattern_priority(
                dm.skip(j as int),
                priority,
            ),
        decreases directives.len() - j,
    {
        let d = &directives[j];
        assert(dm.skip(j as int)[0] == d@);
        if d.key == key {
            let value = chars_of(d.value.as_str());
            match parse_u32_chars(&value) {
                Ok(n) => {
                    priority = n;
                },
                Err(cause) => {
                    return Err(Error::DirectiveValueInvalid { key: d.key.clone(), cause });
                },
            }
        } else {
            return Err(Error::DirectiveUnknown { key: d.key.clone() });
        }
        assert(dm.skip(j as int).skip(1) =~= dm.skip(j + 1));
        j += 1;
    }
    Ok(priority)
}

spec fn vecs_model(v: Seq<Vec<char>>) -> Seq<Seq<char>> {
    v.map_values(|x: Vec<char>| x@)
}

/// The path components of a pattern (see [`path_parts`]).
fn path_parts_of(g: &Vec<char>) -> (parts: Vec<Vec<char>>)
    ensures
        vecs_model(parts@) == path_parts(g@),
{
    let n: usize = g.len();
    let mut a: usize = 0;
    assert(g@.subrange(0, n as int) =~= g@);
    while a < n && g[a] == '/'
        invariant
            a <= n == g.len(),
            strip_leading_slashes(g@) == strip_leading_slashes(g@.subrange(a as int, n as int)),
        decreases n - a,
    {
        assert(g@.subrange(a as int, n as int).skip(1) =~= g@.subrange(a + 1, n as int));
        a += 1;
    }
    let mut b: usize = n;
    while b > a && g[b - 1] == '/'
        invariant
            a <= b <= n == g.len(),
            strip_trailing_slashes(g@.subrange(a as int, n as int)) == strip_trailing_slashes(
                g@.subrange(a as int, b as int),
            ),
        decreases b,
    {
        assert(g@.subrange(a as int, b as int).drop_last() =~= g@.subrange(a as int, b - 1));
        b -= 1;
    }
    let t = subvec(g, a, b);
    assert(t@ =~= strip_trailing_slashes(strip_leading_slashes(g@)));
    let mut parts: Vec<Vec<char>> = Vec::new();
    if t.len() == 0 {
        assert(vecs_model(parts@) =~= Seq::<Seq<char>>::empty());
        return parts;
    }
    let mut start: usize = 0;
    assert(vecs_model(parts@) + split_from(t@, 0) =~= split_from(t@, 0));
    loop
        invariant
            start <= t.len(),
            t.len() > 0,
            t@ == strip_trailing_slashes(strip_leading_slashes(g@)),
            vecs_model(parts@) + split_from(t@, start as int) == split_from(t@, 0),
        decreases t.len() - start,
    {
        let mut e: usize = start;
        while e < t.len() && t[e] != '/'
            invariant
                start <= e <= t.len(),
                slash_end(t@, e as int) == slash_end(t@, start as int),
            decreases t.len() - e,
        {
            e += 1;
        }
        let part = subvec(&t, start, e);
        let ghost before = vecs_model(parts@);
        parts.push(part);
        assert(vecs_model(parts@) =~= before.push(part@));
        if e >= t.len() {
            assert(split_from(t@, start as int) =~= seq![part@]);
            assert(vecs_model(parts@) =~= before + seq![part@]);
            return parts;
        }
        assert(split_from(t@, start as int) == seq![part@] + split_from(t@, e + 1));
        assert(before + (seq![part@] + split_from(t@, e + 1)) =~= vecs_model(parts@) + split_from(
            t@,
            e + 1,
        ));
        start = e + 1;
    }
}

/// Whether some component is exactly `**`.
fn has_recursive_part_of(parts: &Vec<Vec<char>>) -> (b: bool)
    ensures
        b == has_recursive_part(vecs_model(parts@)),
{
    let ghost pm = vecs_model(parts@);
    let mut k: usize = 0;
    while k < parts.len()
        invariant
            k <= parts.len(),
            pm == vecs_model(parts@),
            forall|m: int| 0 <= m < k ==> pm[m] != seq!['*', '*'],
        decreases parts.len() - k,
    {
        let part = &parts[k];
        assert(pm[k as int] == part@);
        if part.len() == 2 && part[0] == '*' && part[1] == '*' {
            assert(part@ =~= seq!['*', '*']);
            return true;
        }
        assert(part@ != seq!['*', '*']) by {
            if part@.len() == 2 {
                assert(part@[0] != '*' || part@[1] != '*');
            }
        }
        k += 1;
    }
    false
}

/// Adds the rules of one pattern line (see [`pattern_rules`]).
fn push_pattern_rules(list: &mut Vec<Rule>, priority: u32, negated: bool, glob: &String) -> (r:
    Result<(), Error>)
    ensures
        match pattern_rules(rules_model(old(list)@), priority, negated, glob@) {
            Ok(rs) => r is Ok && rules_model(final(list)@) == rs,
            Err(e) => r matches Err(x) && x@ == e,
        },
{
    if !negated {
        return push_rule(list, priority, false, false, glob.as_str());
    }
    let g = chars_of(glob.as_str());
    if !(g.len() > 0 && g[0] == '/') {
        return Err(Error::PatternNegatedMustBeAbsolute);
    }
    let parts = path_parts_of(&g);
    if has_recursive_part_of(&parts) {
        return Err(Error::PatternNegatedNoArbitrarySubdirectories);
    }
    let ghost pm = vecs_model(parts@);
    let root = "/";
    proof {
        reveal_strlit("/");
    }
    assert(root@ =~= seq!['/']);
    match push_rule(list, priority, true, false, root) {
        Ok(()) => {},
        Err(e) => {
            return Err(e);
        },
    }
    let ghost r1 = rules_model(list@);
    let ghost target = push_parents(r1, priority, pm, seq!['/']);
    let mut cur = root.to_owned();
    let mut idx: usize = 0;
    assert(pm.skip(0) =~= pm);
    assert(pattern_rules(rules_model(old(list)@), priority, negated, glob@) == match target {
        Err(e) => Err(e),
        Ok(r2) => rules::push_rule(r2, priority, true, glob@.last() == '/', glob@),
    });
    while parts.len() - idx > 1
        invariant
            idx <= parts.len(),
            pm.len() == parts.len(),
            g@ == glob@,
            g.len() > 0,
            pattern_rules(rules_model(old(list)@), priority, negated, glob@) == match target {
                Err(e) => Err(e),
                Ok(r2) => rules::push_rule(r2, priority, true, glob@.last() == '/', glob@),
            },
            pm == vecs_model(parts@),
            push_parents(rules_model(list@), priority, pm.skip(idx as int), cur@) == target,
        decreases parts.len() - idx,
    {
        let ghost before = rules_model(list@);
        let ghost tail = pm.skip(idx as int);
        assert(tail.len() > 1);
        assert(tail[0] == parts@[idx as int]@);
        let ghost old_cur = cur@;
        push_range(&mut cur, &parts[idx], 0, parts[idx].len());
        push_char(&mut cur, '/');
        assert(parts@[idx as int]@.subrange(0, parts@[idx as int]@.len() as int) =~= parts@[idx as int]@);
        assert(cur@ =~= old_cur + tail[0] + seq!['/']);
        match push_rule(list, priority, true, false, cur.as_str()) {
            Ok(()) => {},
            Err(e) => {
                return Err(e);
            },
        }
        assert(tail.skip(1) =~= pm.skip(idx + 1));
        idx += 1;
    }
    push_rule(list, priority, true, g[g.len() - 1] == '/', glob.as_str())
}

impl PathFilter {
    /// Parses pathfilter text into a filter.
    ///
    /// Blank lines and comments are ignored; lines holding only directives are
    /// rejected; the only directive is `@priority:<number>`. Negated patterns
    /// must be absolute and must not contain a `**` component, because they
    /// are expanded into include rules for their parent directories.
    pub fn from_str(s: &str) -> (r: Result<PathFilter, Error>)
        ensures
            match filter_rules(s@) {
                Ok(rs) => r matches Ok(f) && same_rules(f@, rs) && in_evaluation_order(f@) && (
                forall|path: Seq<char>| #[trigger] excluded(f@, path) == excluded(rs, path)),
                Err(e) => r matches Err(x) && x@ == e,
            },
    {
        let file = match parse_input(s) {
            Ok(file) => file,
            Err(e) => {
                return Err(e);
            },
        };
        let ghost es = file@;
        let mut list: Vec<Rule> = Vec::new();
        let mut i: usize = 0;
        assert(es.take(0) =~= Seq::<EntryModel>::empty());
        assert(rules_model(list@) =~= Seq::<RuleModel>::empty());
        while i < file.entries.len()
            invariant
                i <= file.entries.len(),
                es == entries_model(file.entries@),
                filter_rules(s@) == build_rules(es),
                build_rules(es.take(i as int)) == Ok::<Seq<RuleModel>, ErrorModel>(
                    rules_model(list@),
                ),
            decreases file.entries.len() - i,
        {
            let ghost rs = rules_model(list@);
            assert(es.take(i + 1).drop_last() =~= es.take(i as int));
            assert(es.take(i + 1).last() == file.entries@[i as int]@);
            match &file.entries[i] {
                PatternFileEntry::Blank {  } => {},
                PatternFileEntry::Comment {  } => {},
                PatternFileEntry::Directive { directives: _ } => {
                    proof {
                        lemma_build_rules_error_stays(es, i + 1);
                    }
                    return Err(Error::DirectiveGlobalUnsupported);
                },
                PatternFileEntry::Pattern { directives, pattern } => {
                    let priority: u32 = match pattern_priority(directives, &pattern.pattern) {
                        Ok(p) => p,
                        Err(e) => {
                            proof {
                                lemma_build_rules_error_stays(es, i + 1);
                            }
                            return Err(e);
                        },
                    };
                    match push_pattern_rules(&mut list, priority, pattern.negated, &pattern.pattern) {
                        Ok(()) => {},
                        Err(e) => {
                            proof {
                                lemma_build_rules_error_stays(es, i + 1);
                            }
                            return Err(e);
                        },
                    }
                },
            }
            i += 1;
        }
        assert(es.take(i as int) =~= es);
        proof {
            lemma_build_rules_numbered(es);
        }
        let ghost rs = rules_model(list@);
        let sorted = sort_rules(list);
        let f = PathFilter { rules: sorted };
        assert forall|path: Seq<char>| #[trigger] excluded(f@, path) == excluded(rs, path) by {
            lemma_same_rules_same_decision(f@, rs, path);
        }
        Ok(f)
    }
}

impl core::str::FromStr for PathFilter {
    type Err = Error;

    /// Parses pathfilter text into a filter, as [`PathFilter::from_str`].
    fn from_str(s: &str) -> (r: Result<PathFilter, Error>)
        ensures
            match filter_rules(s@) {
                Ok(rs) => r matches Ok(f) && same_rules(f@, rs) && in_evaluation_order(f@) && (
                forall|path: Seq<char>| #[trigger] excluded(f@, path) == excluded(rs, path)),
                Err(e) => r matches Err(x) && x@ == e,
            },
    {
        PathFilter::from_str(s)
    }
}

} // verus!
