//! From the raw help text of one command to the JSON text of its result schema.

use crate::annotate::{annotate_result, frame, Context};
use crate::error::{fails_with, ParseError};
use crate::schema::{render, rendered, well_formed, Schema, SchemaNode};
use crate::text::{
    all_ascii, first_token, first_token_of, from_chars, is_ascii_text, segments, split_in_two,
    to_chars, trim, trimmed,
};
use crate::utils::scrubbing::{scrub, scrubbed_response, Part};
use vstd::prelude::*;

verus! {

/// How many frames a result may nest inside its outermost one.
pub const MAX_NESTING: usize = 128;

/// One command: its name and the schema of its result. A command is made
/// from the help text of the command and is not changed afterwards.
#[derive(Debug, PartialEq, Eq)]
pub struct Command {
    pub name: String,
    pub result_schema: SchemaNode,
}

/// How often the marker `pat` occurs in `s`, occurrences taken from the left
/// without overlap.
pub open spec fn marker_count(s: Seq<char>, pat: Seq<char>) -> int {
    segments(s, pat).len() - 1
}

/// The marker that stands before the result section.
pub open spec fn result_marker() -> Seq<char> {
    "Result:\n"@
}

/// The marker that stands behind the result section.
pub open spec fn examples_marker() -> Seq<char> {
    "Examples:\n"@
}

/// The command's name and the result text of a help text.
///
/// The help text must split at the result marker into exactly two pieces.
/// The first whitespace-delimited token of the first piece is the command's
/// name. The second piece must split at the examples marker into exactly two
/// pieces again, and the first of these, without the whitespace around it, is
/// the result text. A help text that does not split so, or that names no
/// command, fails with `Format`.
pub open spec fn extraction(raw: Seq<char>) -> Result<(Seq<char>, Seq<char>), ParseError> {
    let sections = segments(raw, result_marker());
    if sections.len() != 2 {
        Err(ParseError::Format)
    } else {
        match first_token(sections[0]) {
            None => Err(ParseError::Format),
            Some(name) => {
                let parts = segments(sections[1], examples_marker());
                if parts.len() != 2 {
                    Err(ParseError::Format)
                } else {
                    Ok((name, trimmed(parts[0])))
                }
            },
        }
    }
}

/// The schema of a result text. A character outside ASCII anywhere in the
/// text fails with `Encoding`, before anything else is looked at; the first
/// character then opens the outermost frame.
pub open spec fn result_schema(text: Seq<char>, depth: nat) -> Result<Schema, ParseError> {
    if !all_ascii(text) {
        Err(ParseError::Encoding)
    } else if text.len() == 0 {
        Err(ParseError::UnsupportedShape)
    } else {
        match frame(text, 1, text[0], depth) {
            Err(e) => Err(e),
            Ok((node, _)) => Ok(node),
        }
    }
}

/// The command that a help text describes: its name and the schema of its
/// result.
pub open spec fn command_of(raw: Seq<char>) -> Result<(Seq<char>, Schema), ParseError> {
    match extraction(raw) {
        Err(e) => Err(e),
        Ok((name, text)) => match result_schema(text, MAX_NESTING as nat) {
            Err(e) => Err(e),
            Ok(node) => Ok((name, node)),
        },
    }
}

/// The JSON text of the result schema of a help text.
pub open spec fn interpretation(raw: Seq<char>) -> Result<Seq<char>, ParseError> {
    match command_of(raw) {
        Err(e) => Err(e),
        Ok((_, node)) => Ok(rendered(node)),
    }
}

/// The JSON text of the result schema of a help text whose result text is
/// repaired, by the repairs of the command that the help text names, before
/// it is read.
pub open spec fn scrubbed_interpretation(raw: Seq<char>) -> Result<Seq<char>, ParseError> {
    match extraction(raw) {
        Err(e) => Err(e),
        Ok((name, text)) => match result_schema(
            scrubbed_response(name, text),
            MAX_NESTING as nat,
        ) {
            Err(e) => Err(e),
            Ok(node) => Ok(rendered(node)),
        },
    }
}

/// Isolates the command's name and the result text of a help text.
pub fn extract_name_and_result<'a>(raw_command_help: &'a [char]) -> (r: Result<
    (&'a [char], &'a [char]),
    ParseError,
>)
    ensures
        match extraction(raw_command_help@) {
            Ok((name, text)) => r matches Ok((n, t)) && n@ == name && t@ == text,
            Err(e) => fails_with(r, e),
        },
        marker_count(raw_command_help@, result_marker()) != 1 ==> fails_with(
            r,
            ParseError::Format,
        ),
        marker_count(raw_command_help@, result_marker()) == 1 && marker_count(
            segments(raw_command_help@, result_marker())[1],
            examples_marker(),
        ) != 1 ==> fails_with(r, ParseError::Format),
{
    let result_sections = match split_in_two(raw_command_help, to_chars("Result:\n").as_slice()) {
        None => {
            return Err(ParseError::Format);
        },
        Some(sections) => sections,
    };
    let cmd_name = match first_token_of(result_sections.0) {
        None => {
            return Err(ParseError::Format);
        },
        Some(name) => name,
    };
    let example_sections = match split_in_two(
        result_sections.1,
        to_chars("Examples:\n").as_slice(),
    ) {
        None => {
            return Err(ParseError::Format);
        },
        Some(sections) => sections,
    };
    Ok((cmd_name, trim(example_sections.0)))
}

/// Reads the result text of a command: checks that all of it is ASCII, then
/// reads the frame that its first character opens.
pub fn annotate_result_text(cmd_name: &[char], result_data: &[char]) -> (r: Result<
    SchemaNode,
    ParseError,
>)
    ensures
        match result_schema(result_data@, MAX_NESTING as nat) {
            Ok(node) => r matches Ok(n) && n@ == node,
            Err(e) => fails_with(r, e),
        },
        !all_ascii(result_data@) ==> fails_with(r, ParseError::Encoding),
        r matches Ok(n) ==> well_formed(n@),
{
    if !is_ascii_text(result_data) {
        return Err(ParseError::Encoding);
    }
    if result_data.len() == 0 {
        return Err(ParseError::UnsupportedShape);
    }
    let context = Context { cmd_name, last_char: result_data[0], depth_left: MAX_NESTING };
    match annotate_result(&context, result_data, 1) {
        Err(e) => Err(e),
        Ok((annotated, _)) => Ok(annotated),
    }
}

/// Reads the help text of one command.
pub fn read_command(raw_command_help: &str) -> (r: Result<Command, ParseError>)
    ensures
        match command_of(raw_command_help@) {
            Ok((name, node)) => r matches Ok(c) && c.name@ == name && c.result_schema@ == node,
            Err(e) => fails_with(r, e),
        },
        r matches Ok(c) ==> well_formed(c.result_schema@),
{
    let raw = to_chars(raw_command_help);
    let (cmd_name, result_data) = match extract_name_and_result(raw.as_slice()) {
        Err(e) => {
            return Err(e);
        },
        Ok(found) => found,
    };
    match annotate_result_text(cmd_name, result_data) {
        Err(e) => Err(e),
        Ok(result_schema) => Ok(Command { name: from_chars(cmd_name), result_schema }),
    }
}

/// Reads the help text of one command and writes the JSON text of its
/// result schema.
pub fn interpret_raw_output(raw_command_help: &str) -> (r: Result<String, ParseError>)
    ensures
        match interpretation(raw_command_help@) {
            Ok(text) => r matches Ok(t) && t@ == text,
            Err(e) => fails_with(r, e),
        },
        marker_count(raw_command_help@, result_marker()) != 1 ==> fails_with(
            r,
            ParseError::Format,
        ),
        marker_count(raw_command_help@, result_marker()) == 1 && marker_count(
            segments(raw_command_help@, result_marker())[1],
            examples_marker(),
        ) != 1 ==> fails_with(r, ParseError::Format),
        extraction(raw_command_help@) matches Ok((_, text)) ==> (!all_ascii(text) ==> fails_with(
            r,
            ParseError::Encoding,
        )),
{
    match read_command(raw_command_help) {
        Err(e) => Err(e),
        Ok(command) => Ok(render(&command.result_schema)),
    }
}

/// Reads the help text of one command, repairs its result text, and
/// writes the JSON text of the schema of the repaired result.
pub fn interpret_scrubbed_output(raw_command_help: &str) -> (r: Result<String, ParseError>)
    ensures
        match scrubbed_interpretation(raw_command_help@) {
            Ok(text) => r matches Ok(t) && t@ == text,
            Err(e) => fails_with(r, e),
        },
{
    let raw = to_chars(raw_command_help);
    let (cmd_name, result_data) = match extract_name_and_result(raw.as_slice()) {
        Err(e) => {
            return Err(e);
        },
        Ok(found) => found,
    };
    let name = from_chars(cmd_name);
    let repaired = scrub(name.as_str(), Part::Response, result_data);
    match annotate_result_text(cmd_name, repaired.as_slice()) {
        Err(e) => Err(e),
        Ok(annotated) => Ok(render(&annotated)),
    }
}

} // verus!
