//! The ways in which help text can fail to yield a schema.

use vstd::prelude::*;

verus! {

/// Why no schema was produced. Every failure is final: a command whose help
/// text fails yields no schema, not a partial one.
#[derive(Clone, Copy, Debug, PartialEq, Eq, Structural)]
pub enum ParseError {
    /// A `Result:` or `Examples:` marker is missing or occurs more than once,
    /// or no command name stands before the result section.
    Format,
    /// The result text holds a character outside ASCII.
    Encoding,
    /// The text ended before a frame's closing delimiter.
    UnbalancedDelimiter,
    /// A parenthesised type word is none of `numeric`, `string`, `boolean`.
    UnknownTypeAnnotation,
    /// The help-text provider did not exit with status 0.
    ExternalProcess,
    /// A field line has no `:` or no parenthesised type word, or a nested
    /// value has no line before it to name its key.
    MalformedField,
    /// The result text starts with neither `{` nor `[`.
    UnsupportedShape,
    /// The body of an array holds no JSON object.
    InvalidArrayBody,
    /// Frames are nested more deeply than the context allows.
    DepthExceeded,
}

impl ParseError {
    /// A one-line description of the failure.
    pub fn message(&self) -> (r: &'static str)
        ensures
            r@ == self.message_text(),
    {
        match self {
            ParseError::Format => "missing or repeated section marker",
            ParseError::Encoding => "character outside ASCII",
            ParseError::UnbalancedDelimiter => "text ended inside a frame",
            ParseError::UnknownTypeAnnotation => "unknown type annotation",
            ParseError::ExternalProcess => "help provider failed",
            ParseError::MalformedField => "malformed field line",
            ParseError::UnsupportedShape => "result is neither an object nor an array",
            ParseError::InvalidArrayBody => "array body is not a JSON object",
            ParseError::DepthExceeded => "frames nested too deeply",
        }
    }

    /// The text that `message` returns.
    pub open spec fn message_text(&self) -> Seq<char> {
        match self {
            ParseError::Format => "missing or repeated section marker"@,
            ParseError::Encoding => "character outside ASCII"@,
            ParseError::UnbalancedDelimiter => "text ended inside a frame"@,
            ParseError::UnknownTypeAnnotation => "unknown type annotation"@,
            ParseError::ExternalProcess => "help provider failed"@,
            ParseError::MalformedField => "malformed field line"@,
            ParseError::UnsupportedShape => "result is neither an object nor an array"@,
            ParseError::InvalidArrayBody => "array body is not a JSON object"@,
            ParseError::DepthExceeded => "frames nested too deeply"@,
        }
    }
}

/// `r` is the failure `e`.
pub open spec fn fails_with<T>(r: Result<T, ParseError>, e: ParseError) -> bool {
    r matches Err(f) && f == e
}

} // verus!
