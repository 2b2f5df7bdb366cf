use quizface::text::to_chars;
use quizface::{
    annotate_result_text, extract_name_and_result, interpret_raw_output,
    interpret_scrubbed_output, read_command, render,
    BaseType, Binding, Command, ParseError, SchemaNode, TypeAnnotation,
};
use serde_json::Value;

const SIMPLE_UNNESTED_FULL: &str = r#"simple_unnested

Result:
{
  "outer_id": "xxxx",         (string) the identifier
}

Examples:
> zcash-cli simple_unnested
"#;

const SIMPLE_UNNESTED_RESULT: &str = r#"{"outer_id":"String"}"#;

const SIMPLE_NESTED_FULL: &str = r#"simple_nested

Result:
{
  "outer_id": {
     "inner_id": xxxx,        (numeric, optional) the inner value
  }
}

Examples:
> zcash-cli simple_nested
"#;

const SIMPLE_NESTED_RESULT: &str = r#"{"outer_id":{"inner_id":"Option<Decimal>"}}"#;

const GETINFO_FIELDS: &str = r#"  "version": xxxxx,           (numeric) the server version
  "protocolversion": xxxxx,   (numeric) the protocol version
  "walletversion": xxxxx,     (numeric) the wallet version
  "balance": xxxxxxx,         (numeric) the total Zcash balance of the wallet
  "blocks": xxxxxx,           (numeric) the current number of blocks processed in the server
  "timeoffset": xxxxx,        (numeric) the time offset
  "connections": xxxxx,       (numeric) the number of connections
  "proxy": "host:port",     (string, optional) the proxy used by the server
  "difficulty": xxxxxx,       (numeric) the current difficulty
  "testnet": true|false,      (boolean) if the server is using testnet or not
  "keypoololdest": xxxxxx,    (numeric) the timestamp (seconds since GMT epoch) of the oldest pre-generated key in the key pool
  "keypoolsize": xxxx,        (numeric) how many new keys are pre-generated
  "unlocked_until": ttt,      (numeric) the timestamp in seconds since epoch (midnight Jan 1 1970 GMT) that the wallet is unlocked for transfers, or 0 if the wallet is locked
  "paytxfee": x.xxxx,         (numeric) the transaction fee set in ZEC/kB
  "relayfee": x.xxxx,         (numeric) minimum relay fee for non-free transactions in ZEC/kB
  "errors": "..."           (string) any error messages
"#;

const GETINFO_HEAD: &str = "getinfo\nReturns an object containing various state info.\n\n";

const GETINFO_EXAMPLES: &str = "> zcash-cli getinfo\n> curl --user myusername --data-binary '{\"jsonrpc\": \"1.0\", \"id\":\"curltest\", \"method\": \"getinfo\", \"params\": [] }' -H 'content-type: text/plain;' http://127.0.0.1:8232/\n";

/// The help text of `getinfo`, its result being `result`.
fn help_getinfo_with(result: &str) -> String {
    format!("{}Result:\n{}\n\nExamples:\n{}", GETINFO_HEAD, result, GETINFO_EXAMPLES)
}

fn help_getinfo() -> String {
    help_getinfo_with(&format!("{{\n{}}}", GETINFO_FIELDS))
}

fn getinfo_export() -> Value {
    let mut map = serde_json::Map::new();
    for (key, name) in [
        ("version", "Decimal"),
        ("protocolversion", "Decimal"),
        ("walletversion", "Decimal"),
        ("balance", "Decimal"),
        ("blocks", "Decimal"),
        ("timeoffset", "Decimal"),
        ("connections", "Decimal"),
        ("proxy", "Option<String>"),
        ("difficulty", "Decimal"),
        ("testnet", "bool"),
        ("keypoololdest", "Decimal"),
        ("keypoolsize", "Decimal"),
        ("unlocked_until", "Decimal"),
        ("paytxfee", "Decimal"),
        ("relayfee", "Decimal"),
        ("errors", "String"),
    ] {
        map.insert(key.to_string(), Value::String(name.to_string()));
    }
    Value::Object(map)
}

fn extracted(raw: &str) -> Result<(String, String), ParseError> {
    let chars = to_chars(raw);
    extract_name_and_result(&chars)
        .map(|(name, text)| (name.iter().collect(), text.iter().collect()))
}

// ----------------interpret_raw_output---------------

#[test]
fn interpret_raw_output_simple_unnested_full() {
    let simple_unnested_full = SIMPLE_UNNESTED_FULL;
    let interpreted = interpret_raw_output(simple_unnested_full).unwrap();
    let expected_result = SIMPLE_UNNESTED_RESULT;
    assert_eq!(interpreted, expected_result);
}

#[test]
fn interpret_raw_output_simple_nested_full() {
    let simple_nested_full = SIMPLE_NESTED_FULL;
    let interpreted = interpret_raw_output(simple_nested_full).unwrap();
    let expected_result = SIMPLE_NESTED_RESULT;
    assert_eq!(interpreted, expected_result);
}

#[test]
#[should_panic]
fn interpret_raw_output_extrabrackets_within_input_lines() {
    let extrabrackets = help_getinfo_with(&format!(
        "{{\n{}}}",
        GETINFO_FIELDS.replace("xxxxx,           (numeric)", "xxxxx,   {}   (numeric)")
    ));
    let valid_help_in = interpret_raw_output(&extrabrackets).unwrap();
    assert_eq!(valid_help_in, getinfo_export().to_string());
}

#[test]
#[should_panic]
fn interpret_raw_output_two_starting_brackets_input() {
    let extra_start_bracket = help_getinfo_with(&format!("{{\n{{\n{}}}", GETINFO_FIELDS));
    let valid_help_in = interpret_raw_output(&extra_start_bracket).unwrap();
    assert_eq!(valid_help_in, getinfo_export().to_string());
}

#[test]
#[should_panic]
fn interpret_raw_output_no_results_input() {
    let no_result = format!(
        "{}{{\n{}}}\n\nExamples:\n{}",
        GETINFO_HEAD, GETINFO_FIELDS, GETINFO_EXAMPLES
    );
    let valid_help_in = interpret_raw_output(&no_result).unwrap();
    assert_eq!(valid_help_in, getinfo_export().to_string());
}

#[test]
#[should_panic]
fn interpret_raw_output_no_end_bracket_input() {
    let no_end_bracket = help_getinfo_with(&format!("{{\n{}", GETINFO_FIELDS));
    let valid_help_in = interpret_raw_output(&no_end_bracket).unwrap();
    assert_eq!(valid_help_in, getinfo_export().to_string());
}

#[test]
#[should_panic]
fn interpret_raw_output_no_start_bracket_input() {
    let no_start_bracket = help_getinfo_with(&format!("{}}}", GETINFO_FIELDS));
    let valid_help_in = interpret_raw_output(&no_start_bracket).unwrap();
    assert_eq!(valid_help_in, getinfo_export().to_string());
}

#[test]
fn interpret_raw_output_version_is_decimal() {
    let help = "getinfo\n\nResult:\n{\n\"version\": xxxxx, (numeric) the server version\n}\n\nExamples:\n> zcash-cli getinfo\n";
    assert_eq!(
        interpret_raw_output(help),
        Ok(r#"{"version":"Decimal"}"#.to_string())
    );
}

#[test]
fn interpret_raw_output_nested_object_keeps_sibling() {
    let help = "getnested\n\nResult:\n{\n\"a\": xxxx, (numeric) x\n\"nested\": {\n\"b\": \"xxxx\", (string) y\n}\n}\n\nExamples:\n";
    assert_eq!(
        interpret_raw_output(help),
        Ok(r#"{"a":"Decimal","nested":{"b":"String"}}"#.to_string())
    );
}

#[test]
fn interpret_raw_output_optional_string_is_wrapped() {
    let help = "getproxy\n\nResult:\n{\n\"proxy\": \"xxxx\", (string, optional) proxy addr\n}\n\nExamples:\n";
    assert_eq!(
        interpret_raw_output(help),
        Ok(r#"{"proxy":"Option<String>"}"#.to_string())
    );
}

#[test]
fn interpret_raw_output_boolean_is_bool() {
    let help = "getflag\n\nResult:\n{\n\"ok\": true, (boolean) flag\n}\n\nExamples:\n";
    assert_eq!(
        interpret_raw_output(help),
        Ok(r#"{"ok":"bool"}"#.to_string())
    );
}

#[test]
fn interpret_raw_output_without_examples_marker_is_format_error() {
    let help = "getinfo\n\nResult:\n{\n\"version\": xxxxx, (numeric) the server version\n}\n";
    assert_eq!(interpret_raw_output(help), Err(ParseError::Format));
}

#[test]
fn interpret_raw_output_with_two_examples_markers_is_format_error() {
    let help = "getinfo\n\nResult:\n{\n\"version\": xxxxx, (numeric) the server version\n}\n\nExamples:\nfirst\nExamples:\nsecond\n";
    assert_eq!(interpret_raw_output(help), Err(ParseError::Format));
}

#[test]
fn interpret_raw_output_without_result_marker_is_format_error() {
    let help = "getinfo\n\n{\n}\n\nExamples:\n";
    assert_eq!(interpret_raw_output(help), Err(ParseError::Format));
}

#[test]
fn interpret_raw_output_with_two_result_markers_is_format_error() {
    let help = "getrawmempool\n\nResult:\n{\n}\n\nResult:\n{\n}\n\nExamples:\n";
    assert_eq!(interpret_raw_output(help), Err(ParseError::Format));
}

#[test]
fn interpret_raw_output_without_command_name_is_format_error() {
    assert_eq!(
        interpret_raw_output(" \n\t\nResult:\n{\n}\n\nExamples:\n"),
        Err(ParseError::Format)
    );
    assert_eq!(
        interpret_raw_output("Result:\n{\n}\n\nExamples:\n"),
        Err(ParseError::Format)
    );
}

#[test]
fn interpret_raw_output_non_ascii_in_result_is_encoding_error() {
    let inside = "getinfo\n\nResult:\n{\n\"version\": xxxxx, (numeric) the server\u{2019}s version\n}\n\nExamples:\n";
    assert_eq!(interpret_raw_output(inside), Err(ParseError::Encoding));
    let behind_the_frame = "getinfo\n\nResult:\n{\n}\n\u{e9}\n\nExamples:\n";
    assert_eq!(interpret_raw_output(behind_the_frame), Err(ParseError::Encoding));
    let before_another_failure = "getinfo\n\nResult:\n\"data\" (string) caf\u{e9}\n\nExamples:\n";
    assert_eq!(interpret_raw_output(before_another_failure), Err(ParseError::Encoding));
}

#[test]
fn interpret_raw_output_non_ascii_outside_result_is_read_over() {
    let help = "getinfo\nReturns the server\u{2019}s state.\n\nResult:\n{\n}\n\nExamples:\n> caf\u{e9}\n";
    assert_eq!(interpret_raw_output(help), Ok("{}".to_string()));
}

#[test]
fn interpret_raw_output_non_ascii_whitespace_around_result_is_trimmed() {
    let help = "getinfo\n\nResult:\n\u{a0}{\n}\u{2003}\n\nExamples:\n";
    assert_eq!(interpret_raw_output(help), Ok("{}".to_string()));
}

#[test]
fn interpret_raw_output_text_behind_the_frame_is_read_over() {
    let help = "getinfo\n\nResult:\n{\n}\n}\nmore\n\nExamples:\n";
    assert_eq!(interpret_raw_output(help), Ok("{}".to_string()));
}

#[test]
fn interpret_raw_output_empty_result_is_unsupported() {
    assert_eq!(
        interpret_raw_output("stop\n\nResult:\n\n\nExamples:\n"),
        Err(ParseError::UnsupportedShape)
    );
}

#[test]
fn interpret_raw_output_scalar_result_is_unsupported() {
    assert_eq!(
        interpret_raw_output("getblockcount\n\nResult:\nn    (numeric) The current block count\n\nExamples:\n"),
        Err(ParseError::UnsupportedShape)
    );
}

#[test]
fn interpret_raw_output_unbalanced_result() {
    assert_eq!(
        interpret_raw_output("getinfo\n\nResult:\n{\n\"a\": x, (numeric) x\n\nExamples:\n"),
        Err(ParseError::UnbalancedDelimiter)
    );
}

#[test]
fn interpret_raw_output_unknown_type_word() {
    assert_eq!(
        interpret_raw_output("getinfo\n\nResult:\n{\n\"a\": x, (hexadecimal) x\n}\n\nExamples:\n"),
        Err(ParseError::UnknownTypeAnnotation)
    );
}

#[test]
fn interpret_raw_output_array_result_holds_no_object() {
    assert_eq!(
        interpret_raw_output("getrawmempool\n\nResult:\n[\n  \"transactionid\"     (string) The transaction id\n]\n\nExamples:\n"),
        Err(ParseError::InvalidArrayBody)
    );
}

#[test]
fn interpret_raw_output_nesting_is_limited() {
    let mut result = String::new();
    for _ in 0..=quizface::MAX_NESTING {
        result.push_str("\"k\": {\n");
    }
    for _ in 0..=quizface::MAX_NESTING {
        result.push_str("}\n");
    }
    let too_deep = format!("deep\n\nResult:\n{{\n{}}}\n\nExamples:\n", result);
    assert_eq!(interpret_raw_output(&too_deep), Err(ParseError::DepthExceeded));
    let deepest = too_deep.replacen("\"k\": {\n", "", 1).replacen("}\n", "", 1);
    assert!(interpret_raw_output(&deepest).is_ok());
}

// ----------------interpret_scrubbed_output---------------

#[test]
fn interpret_scrubbed_output_repairs_the_result_before_reading() {
    let help = |name: &str, result: &str| format!("{} ( args )\n\nResult:\n{}\n\nExamples:\n", name, result);
    let progress = "{\n  \"verificationprogress\": xxxx, (numeric) estimate of verification progress [0..1]\n}";
    assert!(interpret_raw_output(&help("getblockchaininfo", progress)).is_err());
    assert_eq!(
        interpret_scrubbed_output(&help("getblockchaininfo", progress)),
        Ok(r#"{"verificationprogress":"Decimal"}"#.to_string())
    );
    let watchonly = "{\n  \"involvesWatchonly\" : true,  (bool) Only returned if imported addresses were involved\n  ,...\n}";
    assert_eq!(
        interpret_raw_output(&help("listreceivedbyaccount", watchonly)),
        Err(ParseError::UnknownTypeAnnotation)
    );
    assert_eq!(
        interpret_scrubbed_output(&help("listreceivedbyaccount", watchonly)),
        Ok(r#"{"involvesWatchonly":"bool"}"#.to_string())
    );
}

#[test]
fn interpret_scrubbed_output_goes_by_the_name_in_the_help_text() {
    let result = "{\n  \"spendable\": x,  (bool) whether it can be spent\n}";
    let help = |name: &str| format!("{}\n\nResult:\n{}\n\nExamples:\n", name, result);
    assert_eq!(
        interpret_scrubbed_output(&help("listunspent")),
        Ok(r#"{"spendable":"bool"}"#.to_string())
    );
    assert_eq!(
        interpret_scrubbed_output(&help("getinfo")),
        Err(ParseError::UnknownTypeAnnotation)
    );
}

#[test]
fn interpret_scrubbed_output_fails_as_interpret_raw_output_on_clean_text() {
    for help in [
        "getinfo\n\nResult:\n{\n}\n",
        "getinfo\n\nResult:\n{\n\u{e9}}\n\nExamples:\n",
        "getinfo\n\nResult:\n{\n\"a\": x, (numeric) x\n}\n\nExamples:\n",
    ] {
        assert_eq!(interpret_scrubbed_output(help), interpret_raw_output(help));
    }
}

// ----------------read_command---------------

#[test]
fn read_command_gives_name_and_schema() {
    let help = "z_getbalance \"address\" ( minconf )\n\nResult:\n{\n\"amount\": x, (numeric, optional) the total\n}\n\nExamples:\n";
    assert_eq!(
        read_command(help),
        Ok(Command {
            name: "z_getbalance".to_string(),
            result_schema: SchemaNode::Object(vec![Binding {
                key: to_chars("amount"),
                value: SchemaNode::Leaf(TypeAnnotation { base: BaseType::Decimal, optional: true }),
            }]),
        })
    );
}

#[test]
fn read_command_fails_as_interpret_raw_output_does() {
    for help in [
        "getinfo\n\nResult:\n{\n}\n",
        "getinfo\n\nResult:\n{\n\u{e9}}\n\nExamples:\n",
        "getinfo\n\nResult:\n{\n\nExamples:\n",
        "getinfo\n\nResult:\nn\n\nExamples:\n",
    ] {
        assert_eq!(
            read_command(help).map(|command| render(&command.result_schema)),
            interpret_raw_output(help)
        );
        assert!(read_command(help).is_err());
    }
}

#[test]
fn annotate_result_text_checks_all_of_the_text() {
    let cmd_name = to_chars("getinfo");
    assert_eq!(
        annotate_result_text(&cmd_name, &to_chars("{} \u{e9}")),
        Err(ParseError::Encoding)
    );
    assert_eq!(
        annotate_result_text(&cmd_name, &to_chars("{} e")),
        Ok(SchemaNode::Object(vec![]))
    );
    assert_eq!(
        annotate_result_text(&cmd_name, &to_chars("")),
        Err(ParseError::UnsupportedShape)
    );
}

// ----------------extract_name_and_result---------------

#[test]
fn extract_name_and_result_of_getinfo() {
    let (name, text) = extracted(&help_getinfo()).unwrap();
    assert_eq!(name, "getinfo");
    assert_eq!(text, format!("{{\n{}}}", GETINFO_FIELDS));
}

#[test]
fn extract_name_and_result_name_is_first_token() {
    assert_eq!(
        extracted("\n\t  z_sendmany \"fromaddress\" [{\"address\":... ,\"amount\":...},...]\n\nResult:\n  \"operationid\"  \n\nExamples:\nnone"),
        Ok(("z_sendmany".to_string(), "\"operationid\"".to_string()))
    );
}

#[test]
fn extract_name_and_result_markers_end_with_line_feed() {
    assert_eq!(extracted("cmd\nResult:\n{}\nExamples:"), Err(ParseError::Format));
    assert_eq!(extracted("cmd\nResult: {}\nExamples:\n"), Err(ParseError::Format));
    assert_eq!(
        extracted("cmd Result:\n{}Examples:\n"),
        Ok(("cmd".to_string(), "{}".to_string()))
    );
}

#[test]
fn extract_name_and_result_examples_marker_before_result_marker() {
    assert_eq!(
        extracted("cmd\nExamples:\nx\nResult:\n{}\n"),
        Err(ParseError::Format)
    );
}

// ----------------serde_json_value----------------

#[test]
fn serde_json_value_help_getinfo() {
    let getinfo_serde_json_value = getinfo_export();
    let help_getinfo = interpret_raw_output(&help_getinfo()).unwrap();
    assert_eq!(getinfo_serde_json_value.to_string(), help_getinfo);
}
