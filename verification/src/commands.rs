//! The command names of the master help listing, and the exit status of the
//! help provider.

use crate::error::{fails_with, ParseError};
use crate::schema::string_views;
use crate::text::{first_token, first_token_of, from_chars, line_seq, lines, to_chars, views};
use vstd::prelude::*;

verus! {

/// A line of the listing that names a command: not empty, and not a
/// category heading, which starts with `=`.
pub open spec fn is_command_line(line: Seq<char>) -> bool {
    line.len() > 0 && line[0] != '='
}

/// The command that each command line names, in the order of the lines: its
/// first whitespace-delimited token. A command line that has no token fails
/// the whole listing.
pub open spec fn commands(lines: Seq<Seq<char>>) -> Result<Seq<Seq<char>>, ParseError>
    decreases lines.len(),
{
    if lines.len() == 0 {
        Ok(Seq::empty())
    } else {
        match commands(lines.drop_last()) {
            Err(e) => Err(e),
            Ok(names) => if !is_command_line(lines.last()) {
                Ok(names)
            } else {
                match first_token(lines.last()) {
                    None => Err(ParseError::Format),
                    Some(name) => Ok(names.push(name)),
                }
            },
        }
    }
}

/// Where the first `k` lines fail, all the lines fail in the same way.
pub proof fn lemma_commands_fail(lines: Seq<Seq<char>>, k: int)
    requires
        0 <= k <= lines.len(),
        commands(lines.take(k)) is Err,
    ensures
        commands(lines) == commands(lines.take(k)),
    decreases lines.len(),
{
    if k < lines.len() {
        assert(lines.drop_last().take(k) =~= lines.take(k));
        lemma_commands_fail(lines.drop_last(), k);
    } else {
        assert(lines.take(k) =~= lines);
    }
}

/// The names of the commands that the master help listing holds.
pub fn ingest_commands(raw_help: &str) -> (r: Result<Vec<String>, ParseError>)
    ensures
        match commands(line_seq(raw_help@)) {
            Ok(names) => r matches Ok(v) && string_views(v@) == names,
            Err(e) => fails_with(r, e),
        },
{
    let text = to_chars(raw_help);
    let help_lines = lines(text.as_slice());
    let ghost all = views(help_lines@);
    let mut commands_str: Vec<String> = Vec::new();
    let mut i: usize = 0;
    assert(all.take(0) =~= Seq::<Seq<char>>::empty());
    assert(string_views(commands_str@) =~= Seq::<Seq<char>>::empty());
    while i < help_lines.len()
        invariant
            i <= help_lines.len(),
            all == views(help_lines@),
            all == line_seq(raw_help@),
            commands(all.take(i as int)) == Ok::<Seq<Seq<char>>, ParseError>(
                string_views(commands_str@),
            ),
        decreases help_lines.len() - i,
    {
        let li = help_lines[i];
        let ghost before = string_views(commands_str@);
        proof {
            assert(all.take(i + 1).drop_last() =~= all.take(i as int));
            assert(all.take(i + 1).last() == li@);
        }
        if li.len() > 0 && li[0] != '=' {
            match first_token_of(li) {
                None => {
                    proof {
                        lemma_commands_fail(all, i + 1);
                    }
                    return Err(ParseError::Format);
                },
                Some(name) => {
                    commands_str.push(from_chars(name));
                    assert(string_views(commands_str@) =~= before.push(name@));
                },
            }
        }
        i += 1;
    }
    assert(all.take(i as int) =~= all);
    Ok(commands_str)
}

/// Whether the help provider ended well: it reported success and its exit
/// code is 0. A missing exit code is a failure.
pub fn check_success(success: bool, code: Option<i32>) -> (r: Result<(), ParseError>)
    ensures
        r is Ok <==> success && code == Some(0i32),
        r is Err ==> fails_with(r, ParseError::ExternalProcess),
{
    match code {
        Some(0) => if success {
            Ok(())
        } else {
            Err(ParseError::ExternalProcess)
        },
        Some(_) => Err(ParseError::ExternalProcess),
        None => Err(ParseError::ExternalProcess),
    }
}

} // verus!
