use path_filter::PathFilter;

fn matcher(input: &str) -> PathFilter {
    PathFilter::from_str(input).unwrap()
}

fn assert_matches(input: &str, cases: &[(&str, bool)]) {
    let matcher = matcher(input);

    for (path, expected) in cases {
        assert_eq!(
            matcher.matches(path),
            *expected,
            "unexpected match result for {path:?} with rules:\n{input}"
        );
    }
}

#[test]
fn unmatched_paths_are_included() {
    assert_matches("*.log", &[("/app.txt", false), ("/logs/debug.txt", false)]);
}

#[test]
fn excludes_log_files() {
    assert_matches(
        "*.log",
        &[
            ("/app.log", true),
            ("/logs/debug.log", true),
            ("/app.txt", false),
        ],
    );
}

#[test]
fn ignores_comments_and_blank_lines() {
    assert_matches(
        "# Exclude build outputs\n\n/build/*\n",
        &[("/build/app.o", true), ("/src/main.rs", false)],
    );
}

#[test]
fn include_rule_overrides_less_specific_exclude_rule() {
    assert_matches(
        "/cache/*\n!/cache/keep/",
        &[
            ("/cache/file", true),
            ("/cache/keep", true),
            ("/cache/keep/", false),
            ("/cache/keep/config.toml", false),
        ],
    );
}

#[test]
fn global_directives_are_rejected() {
    let error = PathFilter::from_str("@priority:200\n!/logs/important/").unwrap_err();

    assert!(
        error
            .message()
            .contains("global directives are currently not supported")
    );
}

#[test]
fn inline_priority_directive_applies_to_its_pattern_line() {
    assert_matches(
        "/logs/*\n@priority:200 !/logs/important/",
        &[
            ("/logs/debug.log", true),
            ("/logs/important/", false),
            ("/logs/important/app.log", false),
        ],
    );
}

#[test]
fn higher_explicit_priority_wins_over_longer_derived_priority() {
    assert_matches(
        "@priority:200 /logs/*\n@priority:100 !/logs/important/",
        &[
            ("/logs/debug.log", true),
            ("/logs/important/", true),
            ("/logs/important/app.log", true),
        ],
    );
}

#[test]
fn later_rule_wins_when_matching_rules_have_the_same_priority() {
    assert_matches(
        "@priority:100 /logs/*\n@priority:100 !/logs/important/",
        &[
            ("/logs/important/", false),
            ("/logs/important/app.log", false),
        ],
    );
}

#[test]
fn directory_paths_may_be_included_to_allow_included_descendants() {
    assert_matches(
        "/uploads/*\n!/uploads/my-dir/important",
        &[
            ("/", false),
            ("/uploads/", false),
            ("/uploads/blub", true),
            ("/uploads/my-dir", true),
            ("/uploads/my-dir/", false),
            ("/uploads/my-dir/xxx", true),
            ("/uploads/my-dir/important", false),
        ],
    );
}

#[test]
fn directory_paths_may_be_included_to_allow_included_descendants_dir() {
    assert_matches(
        "/uploads/*\n!/uploads/my-dir/important/",
        &[
            ("/", false),
            ("/uploads/", false),
            ("/uploads/blub", true),
            ("/uploads/my-dir", true),
            ("/uploads/my-dir/", false),
            ("/uploads/my-dir/xxx", true),
            ("/uploads/my-dir/important", true),
            ("/uploads/my-dir/important/", false),
            ("/uploads/my-dir/important/xxx", false),
        ],
    );
}

#[test]
fn negated_patterns_with_wildcard() {
    assert_matches(
        "/uploads/*\n!/uploads/*/important",
        &[
            ("/", false),
            ("/uploads/", false),
            ("/uploads/blub", true),
            ("/uploads/my-dir", true),
            ("/uploads/my-dir/", false),
            ("/uploads/my-dir/xxx", true),
            ("/uploads/my-dir/important", false),
            ("/uploads/xxx", true),
            ("/uploads/xxx/", false),
            ("/uploads/xxx/xxx", true),
            ("/uploads/xxx/important", false),
        ],
    );
}

#[test]
fn unknown_directive_is_rejected() {
    let error = PathFilter::from_str("@unknown:1 /pattern").unwrap_err();

    assert!(error.message().contains("unknown directive 'unknown'"));
}

#[test]
fn invalid_priority_value_is_rejected() {
    let error = PathFilter::from_str("@priority:high /pattern").unwrap_err();

    assert!(
        error
            .message()
            .contains("invalid directive value for 'priority'")
    );
}

#[test]
fn negated_patterns_must_be_absolute() {
    let error = PathFilter::from_str("*\n!important/").unwrap_err();

    assert!(
        error
            .message()
            .contains("negated patterns must be absolute")
    );
}
