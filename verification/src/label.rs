//! Field lines: `"<identifier>": <placeholder>[,] (<type word>[, optional]) <description>`.

use crate::error::{fails_with, ParseError};
use crate::schema::{BaseType, TypeAnnotation};
use crate::text::{
    contains, find_either, holds, matches_at, next_of, starts_with, strip, stripped, to_chars, trim,
    trimmed,
};
use vstd::prelude::*;
use vstd::slice::{slice_subrange, slice_to_vec};

verus! {

/// The annotation that the text between a field line's parentheses stands
/// for: the base type by the word that the text begins with, and optional
/// exactly where the text holds `, optional`.
pub open spec fn label_of(raw_label: Seq<char>) -> Option<TypeAnnotation> {
    let optional = holds(raw_label, ", optional"@);
    if matches_at(raw_label, "numeric"@, 0) {
        Some(TypeAnnotation { base: BaseType::Decimal, optional })
    } else if matches_at(raw_label, "string"@, 0) {
        Some(TypeAnnotation { base: BaseType::Text, optional })
    } else if matches_at(raw_label, "boolean"@, 0) {
        Some(TypeAnnotation { base: BaseType::Bool, optional })
    } else {
        None
    }
}

/// The part of `s` before its first `c`; all of `s` where it holds no `c`.
pub open spec fn before_first(s: Seq<char>, c: char) -> Seq<char> {
    s.take(next_of(s, c, c, 0))
}

/// The part of `s` after its first `c`.
pub open spec fn after_first(s: Seq<char>, c: char) -> Option<Seq<char>> {
    let i = next_of(s, c, c, 0);
    if 0 <= i < s.len() {
        Some(s.skip(i + 1))
    } else {
        None
    }
}

/// The identifier that the text before a field line's colon names: what
/// stands between its first two double quotes; where it has fewer than two,
/// the text without the double quotes at its ends.
pub open spec fn identifier(lhs: Seq<char>) -> Seq<char> {
    let a = next_of(lhs, '"', '"', 0);
    let b = next_of(lhs, '"', '"', a + 1);
    if 0 <= a < b < lhs.len() {
        lhs.subrange(a + 1, b)
    } else {
        stripped(lhs, '"')
    }
}

/// The text between the first parenthesis of `meta`, opening or closing,
/// and the next one (or the end of `meta`).
pub open spec fn type_word(meta: Seq<char>) -> Option<Seq<char>> {
    let a = next_of(meta, '(', ')', 0);
    if 0 <= a < meta.len() {
        Some(meta.subrange(a + 1, next_of(meta, '(', ')', a + 1)))
    } else {
        None
    }
}

/// The text between the parentheses of a field line: the line without the
/// whitespace around it is cut at its first colon, and what stands behind
/// the colon, again without the whitespace around it, holds the parentheses.
pub open spec fn line_type_word(line: Seq<char>) -> Option<Seq<char>> {
    match after_first(trimmed(line), ':') {
        None => None,
        Some(rest) => type_word(trimmed(rest)),
    }
}

/// The identifier and the annotation of a field line. A line without a colon
/// or without a parenthesis behind the colon is malformed.
pub open spec fn labelled_field(line: Seq<char>) -> Result<(Seq<char>, TypeAnnotation), ParseError> {
    match line_type_word(line) {
        None => Err(ParseError::MalformedField),
        Some(word) => match label_of(word) {
            None => Err(ParseError::UnknownTypeAnnotation),
            Some(a) => Ok((identifier(before_first(trimmed(line), ':')), a)),
        },
    }
}

/// Reads the annotation from the text between a field line's parentheses.
pub fn make_label(raw_label: &[char]) -> (r: Result<TypeAnnotation, ParseError>)
    ensures
        match label_of(raw_label@) {
            Some(a) => r == Ok::<TypeAnnotation, ParseError>(a),
            None => fails_with(r, ParseError::UnknownTypeAnnotation),
        },
        r matches Ok(a) ==> (a.optional <==> holds(raw_label@, ", optional"@)),
{
    let optional = contains(raw_label, to_chars(", optional").as_slice());
    if starts_with(raw_label, to_chars("numeric").as_slice()) {
        Ok(TypeAnnotation { base: BaseType::Decimal, optional })
    } else if starts_with(raw_label, to_chars("string").as_slice()) {
        Ok(TypeAnnotation { base: BaseType::Text, optional })
    } else if starts_with(raw_label, to_chars("boolean").as_slice()) {
        Ok(TypeAnnotation { base: BaseType::Bool, optional })
    } else {
        Err(ParseError::UnknownTypeAnnotation)
    }
}

/// Takes the identifier out of the text before a field line's colon.
pub fn read_identifier<'a>(lhs: &'a [char]) -> (r: &'a [char])
    ensures
        r@ == identifier(lhs@),
{
    let a = find_either(lhs, '"', '"', 0);
    if a < lhs.len() {
        let b = find_either(lhs, '"', '"', a + 1);
        if b < lhs.len() {
            return slice_subrange(lhs, a + 1, b);
        }
    }
    strip(lhs, '"')
}

/// Reads a field line. The command's name has no part in the result.
pub fn label_identifier(ident_with_metadata: &[char], cmd_name: &[char]) -> (r: Result<
    (Vec<char>, TypeAnnotation),
    ParseError,
>)
    ensures
        match labelled_field(ident_with_metadata@) {
            Ok((ident, a)) => r matches Ok((i, b)) && i@ == ident && b == a,
            Err(e) => fails_with(r, e),
        },
        r matches Ok((_, a)) ==> line_type_word(ident_with_metadata@) matches Some(word) && (
        a.optional <==> holds(word, ", optional"@)),
{
    let t = trim(ident_with_metadata);
    let colon = find_either(t, ':', ':', 0);
    if colon >= t.len() {
        return Err(ParseError::MalformedField);
    }
    let lhs = slice_subrange(t, 0, colon);
    let meta = trim(slice_subrange(t, colon + 1, t.len()));
    let open = find_either(meta, '(', ')', 0);
    if open >= meta.len() {
        return Err(ParseError::MalformedField);
    }
    let close = find_either(meta, '(', ')', open + 1);
    let word = slice_subrange(meta, open + 1, close);
    match make_label(word) {
        Err(e) => Err(e),
        Ok(a) => Ok((slice_to_vec(read_identifier(lhs)), a)),
    }
}

} // verus!
