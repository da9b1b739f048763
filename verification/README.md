# path_filter

Matches normalized paths (with `/` separators, directories written with a
trailing `/`) against a small include/exclude rule format. Glob patterns
exclude paths; a pattern prefixed with `!` includes them again. Rules are
evaluated by priority, the later rule winning among equals; a path no rule
applies to is included.

Globs match case sensitively, and `*`, `?` and `[...]` never match `/`
(`**` crosses directories). A pattern that starts with `/` is matched from
the root; any other pattern matches at any depth, so `build/` excludes both
`/build/` and `/tmp/build/`. Excluding a directory excludes what lies
beneath it.

```text
/uploads/*
!/uploads/public/
@priority:200 !/uploads/private/error.log
```

The library is verified with Verus. Layout of `src/`:

- `grammar.rs`: the text format as spec functions on characters.
- `parser.rs`: the parser, proved to follow `grammar.rs`.
- `number.rs`: decimal `u32` values of `@priority:` directives.
- `rules.rs`: the rules a file defines and which rule decides a path.
- `filter.rs`: `PathFilter::from_str` and `PathFilter::matches`.
- `pattern.rs`: glob patterns, compiled and matched by the `glob` crate; its
  answers are named by `glob_syntax_error` and `glob_matches_with`.
- `laws.rs`: properties that hold for every input.
- `error.rs`: errors and their messages.

`app/` adds loading a filter from a file and an error type that implements
`std::error::Error`.
