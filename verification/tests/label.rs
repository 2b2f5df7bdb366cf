use quizface::text::to_chars;
use quizface::{label_identifier, make_label, BaseType, ParseError, TypeAnnotation};

fn labelled(line: &str) -> Result<(String, String), ParseError> {
    label_identifier(&to_chars(line), &to_chars(""))
        .map(|(ident, annotation)| (ident.into_iter().collect(), annotation.name()))
}

#[test]
fn label_identifier_with_expected_input_valid() {
    let raw_version = r#""version": xxxxx,           (numeric) the server version"#;
    let valid_annotation = ("version".to_string(), "Decimal".to_string());
    let (ident, annotation) =
        label_identifier(&to_chars(raw_version), &to_chars("")).unwrap();
    assert_eq!(
        valid_annotation,
        (ident.into_iter().collect::<String>(), annotation.name())
    );
}

#[test]
fn label_identifier_optional_string_is_wrapped() {
    let line = r#""proxy": "xxxx", (string, optional) proxy addr"#;
    assert_eq!(
        labelled(line),
        Ok(("proxy".to_string(), "Option<String>".to_string()))
    );
}

#[test]
fn label_identifier_boolean_is_bool() {
    let line = r#"  "testnet": true|false,      (boolean) if the server is using testnet or not"#;
    assert_eq!(labelled(line), Ok(("testnet".to_string(), "bool".to_string())));
}

#[test]
fn label_identifier_takes_first_parenthesised_segment() {
    let line = r#""keypoololdest": xxxxxx,    (numeric) the timestamp (seconds since GMT epoch) of the oldest key"#;
    assert_eq!(
        labelled(line),
        Ok(("keypoololdest".to_string(), "Decimal".to_string()))
    );
}

#[test]
fn label_identifier_value_may_hold_colons() {
    let line = r#""proxy": "host:port",     (string, optional) the proxy used by the server"#;
    assert_eq!(
        labelled(line),
        Ok(("proxy".to_string(), "Option<String>".to_string()))
    );
}

#[test]
fn label_identifier_identifier_stands_between_first_two_quotes() {
    assert_eq!(
        labelled(r#""size" : n,             (numeric) transaction size in bytes"#),
        Ok(("size".to_string(), "Decimal".to_string()))
    );
}

#[test]
fn label_identifier_without_quotes_keeps_left_hand_side() {
    assert_eq!(
        labelled("amount: n (numeric) the amount"),
        Ok(("amount".to_string(), "Decimal".to_string()))
    );
}

#[test]
fn label_identifier_unclosed_parenthesis_still_names_type() {
    assert_eq!(
        labelled(r#""a": x (string"#),
        Ok(("a".to_string(), "String".to_string()))
    );
}

#[test]
fn label_identifier_without_colon_is_malformed() {
    assert_eq!(labelled("..."), Err(ParseError::MalformedField));
}

#[test]
fn label_identifier_without_parenthesis_is_malformed() {
    assert_eq!(labelled(r#""version": xxxxx"#), Err(ParseError::MalformedField));
}

#[test]
fn label_identifier_unknown_type_word_fails() {
    assert_eq!(
        labelled(r#""data": "xxxx", (hexadecimal) the data"#),
        Err(ParseError::UnknownTypeAnnotation)
    );
}

#[test]
fn make_label_reads_each_type_word() {
    let plain = |base| TypeAnnotation { base, optional: false };
    assert_eq!(make_label(&to_chars("numeric")), Ok(plain(BaseType::Decimal)));
    assert_eq!(make_label(&to_chars("string")), Ok(plain(BaseType::Text)));
    assert_eq!(make_label(&to_chars("boolean")), Ok(plain(BaseType::Bool)));
}

#[test]
fn make_label_goes_by_prefix() {
    assert_eq!(
        make_label(&to_chars("numeric, required")),
        Ok(TypeAnnotation { base: BaseType::Decimal, optional: false })
    );
    assert_eq!(
        make_label(&to_chars("strings")),
        Ok(TypeAnnotation { base: BaseType::Text, optional: false })
    );
}

#[test]
fn make_label_optional_needs_comma_and_space() {
    assert_eq!(
        make_label(&to_chars("numeric, optional")),
        Ok(TypeAnnotation { base: BaseType::Decimal, optional: true })
    );
    assert_eq!(
        make_label(&to_chars("numeric,optional")),
        Ok(TypeAnnotation { base: BaseType::Decimal, optional: false })
    );
    assert_eq!(
        make_label(&to_chars("boolean optional")),
        Ok(TypeAnnotation { base: BaseType::Bool, optional: false })
    );
}

#[test]
fn make_label_rejects_other_words() {
    assert_eq!(make_label(&to_chars("bool")), Err(ParseError::UnknownTypeAnnotation));
    assert_eq!(make_label(&to_chars(" numeric")), Err(ParseError::UnknownTypeAnnotation));
    assert_eq!(make_label(&to_chars("")), Err(ParseError::UnknownTypeAnnotation));
    assert_eq!(make_label(&to_chars("object")), Err(ParseError::UnknownTypeAnnotation));
}

#[test]
fn annotation_names_are_canonical() {
    let names: Vec<String> = [
        (BaseType::Decimal, false),
        (BaseType::Text, false),
        (BaseType::Bool, false),
        (BaseType::Decimal, true),
        (BaseType::Text, true),
        (BaseType::Bool, true),
    ]
    .iter()
    .map(|&(base, optional)| TypeAnnotation { base, optional }.name())
    .collect();
    assert_eq!(
        names,
        vec![
            "Decimal",
            "String",
            "bool",
            "Option<Decimal>",
            "Option<String>",
            "Option<bool>"
        ]
    );
}
