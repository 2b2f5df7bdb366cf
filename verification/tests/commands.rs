use quizface::{check_success, ingest_commands, ParseError};

const MASTER_HELP: &str = "== Addressindex ==
getaddressbalance
getaddressdeltas

== Blockchain ==
getbestblockhash
getblock \"hash|height\" ( verbosity )
getblockchaininfo

== Control ==
getinfo
help ( \"command\" )
stop
";

#[test]
fn ingest_commands_takes_first_token_of_command_lines() {
    assert_eq!(
        ingest_commands(MASTER_HELP),
        Ok(vec![
            "getaddressbalance".to_string(),
            "getaddressdeltas".to_string(),
            "getbestblockhash".to_string(),
            "getblock".to_string(),
            "getblockchaininfo".to_string(),
            "getinfo".to_string(),
            "help".to_string(),
            "stop".to_string(),
        ])
    );
}

#[test]
fn ingest_commands_of_empty_listing_is_empty() {
    assert_eq!(ingest_commands(""), Ok(vec![]));
    assert_eq!(ingest_commands("\n\n== Heading ==\n=\n"), Ok(vec![]));
}

#[test]
fn ingest_commands_reads_lines_with_carriage_returns() {
    assert_eq!(
        ingest_commands("== Control ==\r\ngetinfo\r\n\r\n  stop now"),
        Ok(vec!["getinfo".to_string(), "stop".to_string()])
    );
}

#[test]
fn ingest_commands_heading_must_start_the_line() {
    assert_eq!(
        ingest_commands(" == Control ==\ngetinfo"),
        Ok(vec!["==".to_string(), "getinfo".to_string()])
    );
}

#[test]
fn ingest_commands_line_of_whitespace_fails() {
    assert_eq!(ingest_commands("getinfo\n   \nstop\n"), Err(ParseError::Format));
    assert_eq!(ingest_commands("getinfo\n\t\n"), Err(ParseError::Format));
}

#[test]
fn ingest_commands_vertical_tab_is_no_token_separator() {
    assert_eq!(
        ingest_commands("get\u{b}info x"),
        Ok(vec!["get\u{b}info".to_string()])
    );
}

#[test]
fn check_success_needs_success_and_exit_code_zero() {
    assert_eq!(check_success(true, Some(0)), Ok(()));
    assert_eq!(check_success(false, Some(0)), Err(ParseError::ExternalProcess));
    assert_eq!(check_success(true, Some(1)), Err(ParseError::ExternalProcess));
    assert_eq!(check_success(false, Some(-1)), Err(ParseError::ExternalProcess));
    assert_eq!(check_success(true, None), Err(ParseError::ExternalProcess));
    assert_eq!(check_success(false, None), Err(ParseError::ExternalProcess));
}

#[test]
fn parse_error_messages_differ() {
    let all = [
        ParseError::Format,
        ParseError::Encoding,
        ParseError::UnbalancedDelimiter,
        ParseError::UnknownTypeAnnotation,
        ParseError::ExternalProcess,
        ParseError::MalformedField,
        ParseError::UnsupportedShape,
        ParseError::InvalidArrayBody,
        ParseError::DepthExceeded,
    ];
    for (i, a) in all.iter().enumerate() {
        assert!(!a.message().is_empty());
        for b in all.iter().skip(i + 1) {
            assert_ne!(a.message(), b.message());
        }
    }
}
