use quizface::text::{
    contains, find, find_back, find_either, first_token_of, from_chars, is_ascii_text,
    is_match_at, lines, push_all, replace, same_text, split_in_two, starts_with, strip, to_chars,
    trim, trim_end, trim_start,
};

fn text(chars: &[char]) -> String {
    chars.iter().collect()
}

#[test]
fn to_chars_and_from_chars_are_inverse() {
    let s = "a\u{e9}\u{1f600}\n\"";
    assert_eq!(to_chars(s), s.chars().collect::<Vec<char>>());
    assert_eq!(from_chars(&to_chars(s)), s);
    assert_eq!(to_chars(""), Vec::<char>::new());
}

#[test]
fn same_text_compares_characters() {
    assert!(same_text("", ""));
    assert!(same_text("getinfo", "getinfo"));
    assert!(!same_text("getinfo", "getinf"));
    assert!(!same_text("getinf", "getinfo"));
    assert!(!same_text("getinfo", "getinfO"));
    assert!(!same_text("\u{e9}", "e"));
}

#[test]
fn push_all_appends() {
    let mut out = to_chars("ab");
    push_all(&mut out, &to_chars("cd"));
    push_all(&mut out, &[]);
    assert_eq!(text(&out), "abcd");
}

#[test]
fn is_ascii_text_checks_every_character() {
    assert!(is_ascii_text(&to_chars("")));
    assert!(is_ascii_text(&to_chars("plain \u{7f} text\n")));
    assert!(!is_ascii_text(&to_chars("plain \u{80}")));
    assert!(!is_ascii_text(&to_chars("\u{e9}")));
}

#[test]
fn trim_takes_unicode_whitespace_off() {
    assert_eq!(text(trim(&to_chars(" \t\r\n\u{b}\u{c}a b\u{a0}\u{85}\u{2003}\u{3000}"))), "a b");
    assert_eq!(text(trim(&to_chars("\u{200b}a\u{feff}"))), "\u{200b}a\u{feff}");
    assert_eq!(text(trim(&to_chars(" \n "))), "");
    assert_eq!(text(trim(&to_chars(""))), "");
    assert_eq!(text(trim_start(&to_chars("  a  "))), "a  ");
    assert_eq!(text(trim_end(&to_chars("  a  "))), "  a");
}

#[test]
fn trim_agrees_with_std() {
    for s in ["", " ", "a", " a", "a ", "\u{1680}x\u{2028}\u{2029}\u{202f}\u{205f}", "\u{1c}x\u{1f}", "\u{180e}x"] {
        assert_eq!(text(trim(&to_chars(s))), s.trim());
        assert_eq!(text(trim_start(&to_chars(s))), s.trim_start());
        assert_eq!(text(trim_end(&to_chars(s))), s.trim_end());
    }
}

#[test]
fn find_gives_first_occurrence() {
    let s = to_chars("abcabcabd");
    assert_eq!(find(&s, &to_chars("abd")), Some(6));
    assert_eq!(find(&s, &to_chars("bc")), Some(1));
    assert_eq!(find(&s, &to_chars("abcabcabd")), Some(0));
    assert_eq!(find(&s, &to_chars("abcabcabda")), None);
    assert_eq!(find(&s, &to_chars("x")), None);
    assert_eq!(find(&s, &to_chars("")), Some(0));
    assert_eq!(find(&[], &to_chars("")), Some(0));
    assert_eq!(find(&[], &to_chars("a")), None);
}

#[test]
fn is_match_at_checks_bounds() {
    let s = to_chars("abc");
    assert!(is_match_at(&s, &to_chars("bc"), 1));
    assert!(!is_match_at(&s, &to_chars("bc"), 2));
    assert!(is_match_at(&s, &to_chars(""), 3));
    assert!(!is_match_at(&s, &to_chars(""), 4));
    assert!(starts_with(&s, &to_chars("ab")));
    assert!(!starts_with(&s, &to_chars("b")));
    assert!(contains(&s, &to_chars("c")));
    assert!(!contains(&s, &to_chars("ca")));
}

#[test]
fn find_either_and_find_back() {
    let s = to_chars("a(b)c(d)");
    assert_eq!(find_either(&s, '(', ')', 0), 1);
    assert_eq!(find_either(&s, '(', ')', 2), 3);
    assert_eq!(find_either(&s, ')', ')', 4), 7);
    assert_eq!(find_either(&s, 'x', 'y', 0), 8);
    assert_eq!(find_either(&s, 'a', 'a', 8), 8);
    assert_eq!(find_back(&s, '('), 6);
    assert_eq!(find_back(&s, ')'), 8);
    assert_eq!(find_back(&s, 'x'), 0);
    assert_eq!(find_back(&[], 'x'), 0);
}

#[test]
fn strip_takes_one_character_off_both_ends() {
    assert_eq!(text(strip(&to_chars("\"\"a\"b\"\"\""), '"')), "a\"b");
    assert_eq!(text(strip(&to_chars("\"\"\""), '"')), "");
    assert_eq!(text(strip(&to_chars(" \"a\""), '"')), " \"a");
    assert_eq!(text(strip(&to_chars(""), '"')), "");
}

#[test]
fn split_in_two_needs_exactly_one_marker() {
    let marker = to_chars("Result:\n");
    let split = |s: &str| {
        let chars = to_chars(s);
        split_in_two(&chars, &marker).map(|(head, tail)| (text(head), text(tail)))
    };
    assert_eq!(split("a\nResult:\nb"), Some(("a\n".to_string(), "b".to_string())));
    assert_eq!(split("Result:\n"), Some((String::new(), String::new())));
    assert_eq!(split("a b"), None);
    assert_eq!(split("Result:\nResult:\n"), None);
    assert_eq!(split("a Result:\n b Result:\n c"), None);
    assert_eq!(split("Result: \n"), None);
    assert_eq!(split_in_two(&to_chars("ab"), &[]), None);
}

#[test]
fn lines_agree_with_std() {
    for s in [
        "",
        "\n",
        "a",
        "a\n",
        "a\nb",
        "a\n\nb\n",
        "\n\na",
        "a\r\nb\r\n",
        "a\rb\r",
        "a\r\r\nb",
        "\r\n",
        "\r",
        "a\n\r\n",
    ] {
        let chars = to_chars(s);
        let ours: Vec<String> = lines(&chars).into_iter().map(text).collect();
        let theirs: Vec<String> = s.lines().map(|line| line.to_string()).collect();
        assert_eq!(ours, theirs);
    }
}

#[test]
fn first_token_is_delimited_by_ascii_whitespace() {
    let token = |s: &str| first_token_of(&to_chars(s)).map(text);
    assert_eq!(token("  getinfo  x"), Some("getinfo".to_string()));
    assert_eq!(token("getinfo"), Some("getinfo".to_string()));
    assert_eq!(token("\t\n\u{c}\r a\tb"), Some("a".to_string()));
    assert_eq!(token("\u{b}a b"), Some("\u{b}a".to_string()));
    assert_eq!(token("\u{a0}a"), Some("\u{a0}a".to_string()));
    assert_eq!(token(" \n"), None);
    assert_eq!(token(""), None);
}

#[test]
fn replace_agrees_with_std() {
    for (s, from, to) in [
        ("", "a", "b"),
        ("aaa", "a", "bb"),
        ("aaa", "aa", "b"),
        ("abcabc", "bc", ""),
        ("abcabc", "abcabc", "x"),
        ("abcabc", "abcabcx", "x"),
        ("bool boolean", "bool", "boolean"),
        ("a, ., ...\n..\n", ", ...\n", ""),
        ("xyz", "y", "y"),
        ("\u{e9}t\u{e9}", "\u{e9}", "e"),
    ] {
        assert_eq!(
            text(&replace(&to_chars(s), &to_chars(from), &to_chars(to))),
            s.replace(from, to)
        );
    }
}

#[test]
fn replace_with_empty_pattern_changes_nothing() {
    assert_eq!(text(&replace(&to_chars("abc"), &[], &to_chars("x"))), "abc");
}
