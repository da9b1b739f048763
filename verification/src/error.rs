//! Errors of parsing and of building a filter.
use vstd::prelude::*;

use crate::number::IntErrorKind;
use crate::pattern::GlobSyntaxError;
use crate::text::{decimal, push_decimal};

verus! {

/// Everything that can go wrong while loading a pathfilter.
#[derive(Debug)]
pub enum Error {
    /// The file could not be read.
    Io { message: String },
    /// The text does not follow the pathfilter grammar: `line` counts from 1,
    /// `offset` is the index of the offending character in that line.
    Parsing { line: usize, offset: usize },
    /// `glob` refused a pattern.
    Pattern { pattern: String, source: GlobSyntaxError },
    /// A negated pattern does not start with `/`.
    PatternNegatedMustBeAbsolute,
    /// A negated pattern holds a `**` path component.
    PatternNegatedNoArbitrarySubdirectories,
    /// A directive other than `priority`.
    DirectiveUnknown { key: String },
    /// A directive whose value is not what the directive takes.
    DirectiveValueInvalid { key: String, cause: IntErrorKind },
    /// A line holds directives and no pattern.
    DirectiveGlobalUnsupported,
}

/// The mathematical value of an [`Error`].
pub enum ErrorModel {
    Io(Seq<char>),
    Parsing { line: int, offset: int },
    Pattern { pattern: Seq<char>, position: int, message: Seq<char> },
    PatternNegatedMustBeAbsolute,
    PatternNegatedNoArbitrarySubdirectories,
    DirectiveUnknown(Seq<char>),
    DirectiveValueInvalid(Seq<char>, IntErrorKind),
    DirectiveGlobalUnsupported,
}

impl View for Error {
    type V = ErrorModel;

    open spec fn view(&self) -> ErrorModel {
        match self {
            Error::Io { message } => ErrorModel::Io(message@),
            Error::Parsing { line, offset } => ErrorModel::Parsing {
                line: *line as int,
                offset: *offset as int,
            },
            Error::Pattern { pattern, source } => ErrorModel::Pattern {
                pattern: pattern@,
                position: source.position as int,
                message: source.message@,
            },
            Error::PatternNegatedMustBeAbsolute => ErrorModel::PatternNegatedMustBeAbsolute,
            Error::PatternNegatedNoArbitrarySubdirectories => {
                ErrorModel::PatternNegatedNoArbitrarySubdirectories
            },
            Error::DirectiveUnknown { key } => ErrorModel::DirectiveUnknown(key@),
            Error::DirectiveValueInvalid { key, cause } => ErrorModel::DirectiveValueInvalid(
                key@,
                *cause,
            ),
            Error::DirectiveGlobalUnsupported => ErrorModel::DirectiveGlobalUnsupported,
        }
    }
}

/// How an [`IntErrorKind`] reads.
pub open spec fn int_error_text(k: IntErrorKind) -> Seq<char> {
    match k {
        IntErrorKind::Empty => "cannot parse integer from empty string"@,
        IntErrorKind::InvalidDigit => "invalid digit found in string"@,
        IntErrorKind::PosOverflow => "number too large to fit in target type"@,
    }
}

/// How an error reads.
pub open spec fn error_text(e: ErrorModel) -> Seq<char> {
    match e {
        ErrorModel::Io(m) => m,
        ErrorModel::Parsing { line, offset } => "syntax error at line "@ + decimal(line as nat)
            + ", column "@ + decimal((offset + 1) as nat),
        ErrorModel::Pattern { pattern, position, message } => "invalid pattern '"@ + pattern
            + "': Pattern syntax error near position "@ + decimal(position as nat) + ": "@
            + message,
        ErrorModel::PatternNegatedMustBeAbsolute => "negated patterns must be absolute (start with '/')"@,
        ErrorModel::PatternNegatedNoArbitrarySubdirectories => "negated patterns can not contain arbitrary subdirectories (must not contain '**')"@,
        ErrorModel::DirectiveUnknown(key) => "unknown directive '"@ + key + "'"@,
        ErrorModel::DirectiveValueInvalid(key, cause) => "invalid directive value for '"@ + key
            + "': "@ + int_error_text(cause),
        ErrorModel::DirectiveGlobalUnsupported => "global directives are currently not supported"@,
    }
}

fn int_error_message(k: IntErrorKind) -> (s: String)
    ensures
        s@ == int_error_text(k),
{
    match k {
        IntErrorKind::Empty => "cannot parse integer from empty string".to_owned(),
        IntErrorKind::InvalidDigit => "invalid digit found in string".to_owned(),
        IntErrorKind::PosOverflow => "number too large to fit in target type".to_owned(),
    }
}

impl Error {
    /// The error as text.
    pub fn message(&self) -> (s: String)
        ensures
            s@ == error_text(self@),
    {
        match self {
            Error::Io { message } => message.clone(),
            Error::Parsing { line, offset } => {
                let mut s = "syntax error at line ".to_owned();
                push_decimal(&mut s, *line as u128);
                s.append(", column ");
                push_decimal(&mut s, *offset as u128 + 1);
                s
            },
            Error::Pattern { pattern, source } => {
                let mut s = "invalid pattern '".to_owned();
                s.append(pattern.as_str());
                s.append("': Pattern syntax error near position ");
                push_decimal(&mut s, source.position as u128);
                s.append(": ");
                s.append(source.message.as_str());
                s
            },
            Error::PatternNegatedMustBeAbsolute => {
                "negated patterns must be absolute (start with '/')".to_owned()
            },
            Error::PatternNegatedNoArbitrarySubdirectories => {
                "negated patterns can not contain arbitrary subdirectories (must not contain '**')".to_owned()
            },
            Error::DirectiveUnknown { key } => {
                let mut s = "unknown directive '".to_owned();
                s.append(key.as_str());
                s.append("'");
                s
            },
            Error::DirectiveValueInvalid { key, cause } => {
                let mut s = "invalid directive value for '".to_owned();
                s.append(key.as_str());
                s.append("': ");
                let c = int_error_message(*cause);
                s.append(c.as_str());
                s
            },
            Error::DirectiveGlobalUnsupported => {
                "global directives are currently not supported".to_owned()
            },
        }
    }
}

} // verus!
