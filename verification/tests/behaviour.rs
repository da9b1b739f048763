use path_filter::error::Error;
use path_filter::number::IntErrorKind;
use path_filter::parser::{parse_input, Directive, GlobPattern, PatternFileEntry, StringLiteral};
use path_filter::filter::rule_applies;
use path_filter::PathFilter;

fn filter(input: &str) -> PathFilter {
    PathFilter::from_str(input).unwrap()
}

fn single_entry(input: &str) -> PatternFileEntry {
    let mut file = parse_input(input).unwrap();
    assert_eq!(file.entries.len(), 1);
    file.entries.remove(0)
}

// ----- deciding paths ------------------------------------------------------

#[test]
fn empty_filter_includes_everything() {
    let f = filter("");
    assert!(!f.matches("/"));
    assert!(!f.matches("/anything/at/all"));
}

#[test]
fn explicit_priority_takes_the_last_priority_directive() {
    // The include rule ends up with priority 300, above the exclude rule's 200.
    let f = filter("@priority:200 /logs/*\n@priority:5 @priority:300 !/logs/keep/");
    assert!(!f.matches("/logs/keep/a.log"));
    assert!(f.matches("/logs/other.log"));
}

#[test]
fn longer_pattern_has_higher_derived_priority() {
    let f = filter("/a/*\n!/a/b/");
    assert!(!f.matches("/a/b/c"));
    assert!(f.matches("/a/c"));
    // Same rules, other order: the decision does not depend on the order.
    let g = filter("!/a/b/\n/a/*");
    assert!(!g.matches("/a/b/c"));
    assert!(g.matches("/a/c"));
}

#[test]
fn later_rule_wins_on_equal_derived_priority() {
    // Both patterns are two bytes long.
    assert!(filter("!/a\n/a").matches("/a"));
    assert!(!filter("/a\n!/a").matches("/a"));
}

#[test]
fn negated_pattern_includes_the_root_directory() {
    let f = filter("*\n!/a/b");
    assert!(!f.matches("/"));
    assert!(!f.matches("/a/"));
    assert!(!f.matches("/a/b"));
    assert!(f.matches("/a/c"));
    assert!(f.matches("/a/b/c"));
}

#[test]
fn blank_lines_and_comments_do_not_change_decisions() {
    let f = filter("/x/*\n!/x/y/");
    let g = filter("# rules\n\n/x/*\n   # more\n\n!/x/y/\n\n");
    for path in ["/x/a", "/x/y/", "/x/y/z", "/other", "/"] {
        assert_eq!(f.matches(path), g.matches(path));
    }
}

#[test]
fn blank_lines_and_comments_do_not_change_whether_loading_fails() {
    assert!(PathFilter::from_str("!b\n").is_err());
    assert!(PathFilter::from_str("\n# first\n\n   \n!b\n# last\n").is_err());
    assert!(PathFilter::from_str("\n# only comments\n\n").is_ok());
}

#[test]
fn crlf_line_endings_are_accepted() {
    let f = filter("/cache/*\r\n!/cache/keep/\r\n");
    assert!(f.matches("/cache/file"));
    assert!(!f.matches("/cache/keep/x"));
}

#[test]
fn from_str_trait_builds_the_same_filter() {
    let f: PathFilter = "*.log".parse().unwrap();
    assert!(f.matches("/a.log"));
    assert!(!f.matches("/a.txt"));
}

#[test]
fn rule_applies_combines_glob_answers() {
    // A match of the pattern itself always applies.
    assert!(rule_applies(false, false, "/a", "/a", true, false, false));
    // An exclude rule applies within a directory it matches, but not through
    // the directory form or a prefix.
    assert!(rule_applies(false, false, "/a", "/a/b", false, false, true));
    assert!(!rule_applies(false, true, "/a/", "/a/b", false, true, false));
    // An include rule applies to the directory form of what it names, but not
    // within a directory it matches.
    assert!(rule_applies(true, false, "/a", "/a/", false, true, false));
    assert!(!rule_applies(true, false, "/a", "/a/b", false, false, true));
    // A recursive include rule applies below its directory.
    assert!(rule_applies(true, true, "/a/", "/a/b/c", false, false, false));
    assert!(!rule_applies(true, true, "/a/", "/ab/c", false, false, false));
    assert!(!rule_applies(true, false, "/a/", "/a/b/c", false, false, false));
}

// ----- errors --------------------------------------------------------------

#[test]
fn syntax_error_reports_line_and_offset() {
    let e = PathFilter::from_str("/ok\n!\n").unwrap_err();
    assert!(matches!(e, Error::Parsing { line: 2, offset: 1 }));
    assert_eq!(e.message(), "syntax error at line 2, column 2");
}

#[test]
fn missing_directive_value_is_a_syntax_error() {
    let e = parse_input("@priority: /a").unwrap_err();
    assert!(matches!(e, Error::Parsing { line: 1, offset: 10 }));
}

#[test]
fn unterminated_quote_is_a_syntax_error() {
    let e = parse_input("@k:\"abc /a").unwrap_err();
    assert!(matches!(e, Error::Parsing { line: 1, offset: 10 }));
}

#[test]
fn directive_glued_to_pattern_is_a_syntax_error() {
    let e = parse_input("@k:\"v\"/a").unwrap_err();
    assert!(matches!(e, Error::Parsing { line: 1, offset: 6 }));
}

#[test]
fn invalid_glob_is_rejected_with_its_position() {
    let e = PathFilter::from_str("/a/***").unwrap_err();
    match &e {
        Error::Pattern { pattern, source } => {
            assert_eq!(pattern, "/a/***");
            assert_eq!(source.position, 5);
        }
        other => panic!("unexpected error {other:?}"),
    }
    assert!(e.message().starts_with("invalid pattern '/a/***': Pattern syntax error near position 5: "));
}

#[test]
fn negated_pattern_with_recursive_wildcard_is_rejected() {
    let e = PathFilter::from_str("!/a/**/b").unwrap_err();
    assert!(matches!(e, Error::PatternNegatedNoArbitrarySubdirectories));
    assert!(e.message().contains("can not contain arbitrary subdirectories"));
}

#[test]
fn unknown_directive_after_valid_priority_is_rejected() {
    let e = PathFilter::from_str("@priority:1 @x:y /p").unwrap_err();
    match &e {
        Error::DirectiveUnknown { key } => assert_eq!(key, "x"),
        other => panic!("unexpected error {other:?}"),
    }
    assert_eq!(e.message(), "unknown directive 'x'");
}

#[test]
fn priority_value_errors_name_their_cause() {
    let e = PathFilter::from_str("@priority:+ /p").unwrap_err();
    assert!(matches!(e, Error::DirectiveValueInvalid { cause: IntErrorKind::InvalidDigit, .. }));
    assert_eq!(e.message(), "invalid directive value for 'priority': invalid digit found in string");

    let e = PathFilter::from_str("@priority:4294967296 /p").unwrap_err();
    assert!(matches!(e, Error::DirectiveValueInvalid { cause: IntErrorKind::PosOverflow, .. }));

    let e = PathFilter::from_str("@priority:\"\" /p").unwrap_err();
    assert!(matches!(e, Error::DirectiveValueInvalid { cause: IntErrorKind::Empty, .. }));
}

#[test]
fn priority_accepts_plus_sign_and_the_largest_u32() {
    let f = filter("@priority:+4294967295 !/a/\n@priority:4294967295 /a/*");
    // Equal priorities: the later exclude rule wins.
    assert!(f.matches("/a/b"));
}

#[test]
fn directive_only_line_message() {
    let e = PathFilter::from_str("@priority:1").unwrap_err();
    assert_eq!(e.message(), "global directives are currently not supported");
}

#[test]
fn relative_negated_pattern_message() {
    let e = PathFilter::from_str("!a").unwrap_err();
    assert_eq!(e.message(), "negated patterns must be absolute (start with '/')");
}

// ----- the text format -----------------------------------------------------

#[test]
fn indented_hash_line_is_a_comment() {
    assert_eq!(single_entry("  \t# note"), PatternFileEntry::Comment {});
}

#[test]
fn whitespace_only_line_is_blank() {
    assert_eq!(single_entry(" \t "), PatternFileEntry::Blank {});
}

#[test]
fn trailing_spaces_are_trimmed_unless_escaped() {
    assert_eq!(
        single_entry("/a b  \t"),
        PatternFileEntry::Pattern {
            directives: vec![],
            pattern: GlobPattern { negated: false, pattern: "/a b".to_string() },
        }
    );
    assert_eq!(
        single_entry("/a\\  "),
        PatternFileEntry::Pattern {
            directives: vec![],
            pattern: GlobPattern { negated: false, pattern: "/a\\ ".to_string() },
        }
    );
}

#[test]
fn quoted_values_keep_spaces_and_unescape() {
    assert_eq!(
        single_entry("@k:\"a b\\\\c\\\"d\" @n:7 !/p"),
        PatternFileEntry::Pattern {
            directives: vec![
                Directive { key: "k".to_string(), value: "a b\\c\"d".to_string() },
                Directive { key: "n".to_string(), value: "7".to_string() },
            ],
            pattern: GlobPattern { negated: true, pattern: "/p".to_string() },
        }
    );
}

#[test]
fn trailing_newline_adds_no_entry_but_inner_empty_lines_do() {
    assert_eq!(parse_input("a\n").unwrap().entries.len(), 1);
    assert_eq!(parse_input("a\n\n").unwrap().entries.len(), 2);
    assert_eq!(parse_input("").unwrap().entries.len(), 0);
    assert_eq!(parse_input("\n").unwrap().entries, vec![PatternFileEntry::Blank {}]);
}

#[test]
fn ignorelist_example_excludes_uploads_but_keeps_public_ones() {
    let f = filter("/uploads/*\n!/uploads/public/\n!/uploads/private/error.log\n");
    assert!(f.matches("/uploads/private.txt"));
    assert!(!f.matches("/uploads/public/file.txt"));
    assert!(!f.matches("/uploads/private/error.log"));
    assert!(!f.matches("/uploads/private/"));
    assert!(f.matches("/uploads/private/other.log"));
}

#[test]
fn forced_include_beats_excluded_logs() {
    let f = filter("@priority:100 /logs/*\n@priority:1000 !/logs/important/");
    assert!(f.matches("/logs/debug.log"));
    assert!(!f.matches("/logs/important/today.log"));
}

#[test]
fn first_failing_line_is_reported() {
    let e = PathFilter::from_str("/ok\n@x:1 /a\n!b\n").unwrap_err();
    match &e {
        Error::DirectiveUnknown { key } => assert_eq!(key, "x"),
        other => panic!("unexpected error {other:?}"),
    }
    let e = PathFilter::from_str("!b\n@x:1 /a\n").unwrap_err();
    assert!(matches!(e, Error::PatternNegatedMustBeAbsolute));
}

#[test]
fn reordering_lines_of_distinct_priority_keeps_decisions() {
    let f = filter("@priority:5 /a/*\n@priority:9 !/a/b/\n*.tmp");
    let g = filter("*.tmp\n@priority:9 !/a/b/\n@priority:5 /a/*");
    for path in ["/a/c", "/a/b/", "/a/b/c", "/x.tmp", "/a/b/x.tmp", "/z"] {
        assert_eq!(f.matches(path), g.matches(path), "{path}");
    }
}

#[test]
fn exclude_rule_applies_to_directory_and_contents() {
    let f = filter("/x/keep");
    assert!(f.matches("/x/keep"));
    assert!(f.matches("/x/keep/"));
    assert!(f.matches("/x/keep/inner"));
    assert!(!f.matches("/x/keeper"));
}

#[test]
fn include_rule_applies_to_directory_form() {
    let f = filter("/x/*\n!/x/keep");
    assert!(!f.matches("/x/keep"));
    assert!(!f.matches("/x/keep/"));
    assert!(f.matches("/x/keep/inner"));
}

#[test]
fn include_directory_above_all_excludes_keeps_its_tree() {
    let f = filter("*\n!/d/");
    assert!(!f.matches("/d/"));
    assert!(!f.matches("/d/x/y"));
    assert!(!f.matches("/"));
    assert!(f.matches("/e"));
}

#[test]
fn include_directory_above_all_excludes_keeps_its_parents() {
    let f = filter("/*\n*.log\n!/a/b/c/");
    assert!(!f.matches("/"));
    assert!(!f.matches("/a/"));
    assert!(!f.matches("/a/b/"));
    assert!(!f.matches("/a/b/c/"));
    assert!(!f.matches("/a/b/c/d.log"));
    assert!(f.matches("/x"));
    assert!(f.matches("/a/x.log"));
}

#[test]
fn unescape_drops_one_character_per_escape_pair() {
    let v = StringLiteral::unescape_quoted_value("\"a\\\\b\\\"\"");
    assert_eq!(v, "a\\b\"");
    assert_eq!(v.chars().count(), 6 - 2);
}

// ----- the pattern format -------------------------------------------------

#[test]
fn unanchored_pattern_matches_at_any_depth() {
    let f = filter("*.log");
    assert!(f.matches("/app.log"));
    assert!(f.matches("/logs/debug.log"));
    assert!(!f.matches("/app.txt"));
}

#[test]
fn trailing_slash_pattern_matches_directories_at_any_depth() {
    let f = filter("build/");
    assert!(f.matches("/build/"));
    assert!(f.matches("/tmp/build/"));
    assert!(f.matches("/tmp/build/out.o"));
    assert!(!f.matches("/build.txt"));
    assert!(!f.matches("/build"));
}

#[test]
fn leading_slash_pattern_matches_from_the_root() {
    let f = filter("/foo/bar");
    assert!(f.matches("/foo/bar"));
    assert!(!f.matches("/tmp/foo/bar"));
}

#[test]
fn double_star_pattern_crosses_directories() {
    let f = filter("**/cache/");
    assert!(f.matches("cache/"));
    assert!(f.matches("tmp/cache/"));
    assert!(f.matches("build/tmp/cache/"));
}

#[test]
fn single_star_and_question_mark_do_not_cross_slash() {
    let f = filter("/a/*.c
/b/?");
    assert!(f.matches("/a/x.c"));
    assert!(!f.matches("/a/sub/x.d"));
    assert!(!f.matches("/a/sub/x.c"));
    assert!(f.matches("/b/x"));
    assert!(!f.matches("/b/xy"));
}

#[test]
fn excluded_directory_excludes_its_contents() {
    let f = filter("/build/*");
    assert!(f.matches("/build/app.o"));
    assert!(f.matches("/build/sub/deeper/file"));
    assert!(!f.matches("/src/main.rs"));
}

#[test]
fn character_classes_match_one_character() {
    let f = filter("/[abc].txt
/[a-c]x");
    assert!(f.matches("/b.txt"));
    assert!(!f.matches("/d.txt"));
    assert!(f.matches("/cx"));
}
