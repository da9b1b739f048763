//! Glob patterns, compiled and matched by the `glob` crate.
use vstd::prelude::*;

verus! {

/// What `glob::Pattern::new` reports for the pattern text `pattern`: `None`
/// when it compiles, else the position and the message of its
/// `PatternError`.
///
/// The result is a function of the text alone; `glob` decides which
/// characters separate path components by the target the crate is built for.
pub uninterp spec fn glob_syntax_error(pattern: Seq<char>) -> Option<(usize, Seq<char>)>;

/// Whether `glob::Pattern::matches_with` accepts the whole of `path` for the
/// pattern compiled from the text `pattern`, with the `MatchOptions` given by
/// the three flags (`case_sensitive`, `require_literal_separator`,
/// `require_literal_leading_dot`).
pub uninterp spec fn glob_matches_with(
    pattern: Seq<char>,
    path: Seq<char>,
    case_sensitive: bool,
    literal_separator: bool,
    literal_leading_dot: bool,
) -> bool;

/// A pattern text with none of glob's wildcard characters (`*`, `?`, `[`):
/// `glob` reads it as a list of plain characters.
pub open spec fn has_no_wildcards(pattern: Seq<char>) -> bool {
    !pattern.contains('*') && !pattern.contains('?') && !pattern.contains('[')
}

#[verifier::external_type_specification]
#[verifier::external_body]
pub struct ExGlobPattern(glob::Pattern);

/// Why a glob pattern failed to compile.
#[derive(Debug, PartialEq, Eq)]
pub struct GlobSyntaxError {
    /// The approximate character index of the error.
    pub position: usize,
    /// What is wrong.
    pub message: String,
}

/// A glob pattern together with the text it was compiled from.
///
/// The fields are private to this module, and `compile` is the only code
/// that builds a value: `compiled` is always `glob::Pattern::new(source)`.
#[derive(Debug)]
pub struct CompiledPattern {
    source: String,
    compiled: glob::Pattern,
}

impl View for CompiledPattern {
    type V = Seq<char>;

    closed spec fn view(&self) -> Seq<char> {
        self.source@
    }
}

impl CompiledPattern {
    /// Compiles `text` with `glob::Pattern::new`.
    ///
    /// Trusted: the contract claims that the call succeeds exactly when
    /// `glob_syntax_error(text)` is `None`, that the error it returns
    /// otherwise carries that position and message, and that the compiled
    /// pattern keeps `text` as its source.
    #[verifier::external_body]
    pub(crate) fn compile(text: &str) -> (r: Result<CompiledPattern, GlobSyntaxError>)
        ensures
            match r {
                Ok(p) => glob_syntax_error(text@) is None && p@ == text@,
                Err(e) => glob_syntax_error(text@) == Some((e.position, e.message@)),
            },
    {
        match glob::Pattern::new(text) {
            Ok(compiled) => Ok(CompiledPattern { source: text.to_string(), compiled }),
            Err(e) => Err(GlobSyntaxError { position: e.pos, message: e.msg.to_string() }),
        }
    }

    /// Matches the whole of `path` with `glob::Pattern::matches_with`, with
    /// the `MatchOptions` made of the three flags.
    ///
    /// Trusted: the contract claims that the answer is
    /// `glob_matches_with(source, path, ..)` for the same flags, which holds
    /// because the pattern was compiled from its source by `compile`; and
    /// that a source without wildcards matches its own text, whatever the
    /// flags: `Pattern::new` turns each of its characters into a plain
    /// character token, and each token then matches the same character.
    #[verifier::external_body]
    pub(crate) fn matches_with(
        &self,
        path: &str,
        case_sensitive: bool,
        require_literal_separator: bool,
        require_literal_leading_dot: bool,
    ) -> (r: bool)
        ensures
            r == glob_matches_with(
                self@,
                path@,
                case_sensitive,
                require_literal_separator,
                require_literal_leading_dot,
            ),
            has_no_wildcards(self@) && path@ == self@ ==> r,
    {
        let options = glob::MatchOptions {
            case_sensitive,
            require_literal_separator,
            require_literal_leading_dot,
        };
        self.compiled.matches_with(path, options)
    }

    /// The text the pattern was compiled from.
    pub fn as_str(&self) -> (r: &str)
        ensures
            r@ == self@,
    {
        self.source.as_str()
    }
}

} // verus!
