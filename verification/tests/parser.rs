use path_filter::parser::{
    parse_input, Directive, GlobPattern, PatternFile, PatternFileEntry, StringLiteral,
};

fn directive(key: &str, value: &str) -> Directive {
    Directive {
        key: key.to_string(),
        value: value.to_string(),
    }
}

fn pattern(negated: bool, value: &str) -> GlobPattern {
    GlobPattern {
        negated,
        pattern: value.to_string(),
    }
}

#[test]
fn pattern_file_parses_blank_comments_and_patterns() {
    let file = parse_input("# ignore everything\n*\n\n# but uploads\n!/uploads\n").unwrap();

    assert_eq!(
        file,
        PatternFile {
            entries: vec![
                PatternFileEntry::Comment {},
                PatternFileEntry::Pattern {
                    directives: vec![],
                    pattern: pattern(false, "*"),
                },
                PatternFileEntry::Blank {},
                PatternFileEntry::Comment {},
                PatternFileEntry::Pattern {
                    directives: vec![],
                    pattern: pattern(true, "/uploads"),
                },
            ],
        }
    );
}

#[test]
fn pattern_file_parses_directive_only_lines() {
    let file = parse_input("@priority:100\n@tag:\"two words\"\n").unwrap();

    assert_eq!(
        file,
        PatternFile {
            entries: vec![
                PatternFileEntry::Directive {
                    directives: vec![directive("priority", "100")],
                },
                PatternFileEntry::Directive {
                    directives: vec![directive("tag", "two words")],
                },
            ],
        }
    );
}

#[test]
fn pattern_file_parses_pattern_lines_with_inline_directives() {
    let file =
        parse_input("@priority:200 @label:\"important logs\" !logs/important/\n").unwrap();

    assert_eq!(
        file,
        PatternFile {
            entries: vec![PatternFileEntry::Pattern {
                directives: vec![
                    directive("priority", "200"),
                    directive("label", "important logs"),
                ],
                pattern: pattern(true, "logs/important/"),
            }],
        }
    );
}

#[test]
fn pattern_file_unescapes_quoted_directive_values() {
    let file = parse_input(r#"@xx:"y-\"y\\y" pattern"#).unwrap();

    assert_eq!(
        file,
        PatternFile {
            entries: vec![PatternFileEntry::Pattern {
                directives: vec![directive("xx", r#"y-"y\y"#)],
                pattern: pattern(false, "pattern"),
            }],
        }
    );
}

#[test]
fn unescape_quoted_value_removes_quotes() {
    assert_eq!(StringLiteral::unescape_quoted_value(r#""hello""#), "hello");
}

#[test]
fn unescape_quoted_value_handles_escaped_quote() {
    assert_eq!(StringLiteral::unescape_quoted_value(r#""y-\"y""#), "y-\"y");
}

#[test]
fn unescape_quoted_value_handles_escaped_backslash() {
    assert_eq!(StringLiteral::unescape_quoted_value(r#""y\\y""#), r#"y\y"#);
}
