use philiprehberger_dotenv::dotenv::{conversion_result, parse_bool_word, value_or_default};
use philiprehberger_dotenv::{interpolate, parse_env_content, DotEnv, DotEnvError};
use std::str::FromStr;

fn parsed<T: FromStr>(s: &str) -> Option<T> {
    s.parse::<T>().ok()
}

fn no_env() -> Vec<(String, String)> {
    Vec::new()
}

fn load(content: &str) -> DotEnv {
    DotEnv::from_str(content, &no_env()).expect("failed to parse")
}

fn parse_failure(content: &str) -> (usize, String) {
    match DotEnv::from_str(content, &no_env()) {
        Err(DotEnvError::Parse { line, message }) => (line, message),
        _ => panic!("expected a parse error"),
    }
}

fn interpolation_failure(content: &str) -> (String, String) {
    match DotEnv::from_str(content, &no_env()) {
        Err(DotEnvError::InterpolationError { key, references }) => (key, references),
        _ => panic!("expected an interpolation error"),
    }
}

#[test]
fn unterminated_double_quote_reports_its_line() {
    let (line, message) = parse_failure("A=1\nB=\"abc");
    assert_eq!(line, 2);
    assert_eq!(message, "unterminated double-quoted string");
}

#[test]
fn unterminated_escape_is_reported() {
    let (line, message) = parse_failure("B=\"abc\\");
    assert_eq!(line, 1);
    assert_eq!(message, "unterminated escape sequence");
}

#[test]
fn unterminated_single_quote_is_reported() {
    let (line, message) = parse_failure("# comment\n\nC='abc");
    assert_eq!(line, 3);
    assert_eq!(message, "unterminated single-quoted string");
}

#[test]
fn first_failing_line_wins() {
    let (line, _) = parse_failure("A='x\nB=\"y");
    assert_eq!(line, 1);
}

#[test]
fn unknown_escape_is_kept() {
    let env = load(r#"A="a\qb""#);
    assert_eq!(env.get("A"), Some(r"a\qb"));
}

#[test]
fn text_after_closing_quote_is_ignored() {
    let env = load("A=\"x\" trailing\nB='y'z");
    assert_eq!(env.get("A"), Some("x"));
    assert_eq!(env.get("B"), Some("y"));
}

#[test]
fn inline_comment_needs_a_space_before_it() {
    let env = load("A=a#b\nB=a #b\nC=#b\nD=x   # c");
    assert_eq!(env.get("A"), Some("a#b"));
    assert_eq!(env.get("B"), Some("a"));
    assert_eq!(env.get("C"), Some(""));
    assert_eq!(env.get("D"), Some("x"));
}

#[test]
fn export_prefix_variants() {
    let env = load("export   K=v\nexport\nexportJ=w\nexport export L=1");
    assert_eq!(env.get("K"), Some("v"));
    assert_eq!(env.get("exportJ"), Some("w"));
    assert_eq!(env.get("export L"), Some("1"));
    assert_eq!(env.keys().len(), 3);
}

#[test]
fn crlf_line_endings() {
    let env = load("A=1\r\nB=\"two\"\r\n");
    assert_eq!(env.get("A"), Some("1"));
    assert_eq!(env.get("B"), Some("two"));
}

#[test]
fn later_duplicate_wins_also_for_references() {
    let env = load("A=1\nB=${A}\nA=3");
    assert_eq!(env.get("A"), Some("3"));
    assert_eq!(env.get("B"), Some("3"));
    assert_eq!(env.keys().len(), 2);
}

#[test]
fn empty_key_and_comment_lines_skipped() {
    let env = load("=value\n   \n  # note\nK = v ");
    assert_eq!(env.keys(), vec!["K"]);
    assert_eq!(env.get("K"), Some("v"));
}

#[test]
fn unterminated_reference_stays_literal() {
    let env = load("A=${B");
    assert_eq!(env.get("A"), Some("${B"));
}

#[test]
fn undefined_reference_reads_empty() {
    let env = load("A=x${NOPE}y\nE=${}");
    assert_eq!(env.get("A"), Some("xy"));
    assert_eq!(env.get("E"), Some(""));
}

#[test]
fn defined_key_shadows_environment() {
    let process_env = vec![("HOST".to_string(), "from_env".to_string())];
    let env = DotEnv::from_str("HOST=local\nURL=${HOST}", &process_env).unwrap();
    assert_eq!(env.get("URL"), Some("local"));
}

#[test]
fn double_dollar_before_reference() {
    let env = load("A=x\nB=$${A}");
    assert_eq!(env.get("B"), Some("$x"));
}

#[test]
fn referenced_text_is_not_scanned_again() {
    let env = load("A=$\nB=${A}{C}\nC=c");
    assert_eq!(env.get("B"), Some("${C}"));
}

#[test]
fn self_reference_error_names_key_and_reference() {
    assert_eq!(interpolation_failure("A=${A}"), ("A".to_string(), "A".to_string()));
}

#[test]
fn two_key_cycle_error_names_first_key() {
    assert_eq!(interpolation_failure("A=${B}\nB=${A}"), ("A".to_string(), "B".to_string()));
}

#[test]
fn cycle_reached_through_a_chain() {
    assert_eq!(
        interpolation_failure("A=${B}\nB=${C}\nC=${B}"),
        ("A".to_string(), "B".to_string())
    );
}

#[test]
fn get_bool_missing_and_invalid() {
    let env = load("VAL=maybe");
    match env.get_bool("NOPE") {
        Err(DotEnvError::MissingVars(vars)) => assert_eq!(vars, vec!["NOPE".to_string()]),
        _ => panic!("expected MissingVars"),
    }
    match env.get_bool("VAL") {
        Err(DotEnvError::TypeConversion { key, expected, value }) => {
            assert_eq!(key, "VAL");
            assert_eq!(expected, "bool");
            assert_eq!(value, "maybe");
        }
        _ => panic!("expected TypeConversion"),
    }
}

#[test]
fn get_bool_rejects_padding_and_other_words() {
    let env = load("A=\"true \"\nB=y\nC=No\nD=FaLsE");
    assert!(env.get_bool("A").is_err());
    assert!(env.get_bool("B").is_err());
    assert!(!env.get_bool("C").unwrap());
    assert!(!env.get_bool("D").unwrap());
}

#[test]
fn get_as_missing_and_invalid() {
    let env = load("PORT=eighty");
    match env.get_as("NOPE", "u16", parsed::<u16>) {
        Err(DotEnvError::MissingVars(vars)) => assert_eq!(vars, vec!["NOPE".to_string()]),
        _ => panic!("expected MissingVars"),
    }
    match env.get_as("PORT", "u16", parsed::<u16>) {
        Err(DotEnvError::TypeConversion { key, expected, value }) => {
            assert_eq!(key, "PORT");
            assert_eq!(expected, "u16");
            assert_eq!(value, "eighty");
        }
        _ => panic!("expected TypeConversion"),
    }
}

#[test]
fn get_list_edges() {
    let env = load("A=a,b,\nB=\nC=x;y");
    assert_eq!(env.get_list("A", ','), vec!["a", "b", ""]);
    assert_eq!(env.get_list("B", ','), vec![""]);
    assert_eq!(env.get_list("C", ','), vec!["x;y"]);
    assert_eq!(env.get_list("C", ';'), vec!["x", "y"]);
}

#[test]
fn require_lists_missing_in_order() {
    let env = load("A=1");
    match env.require(&["Z", "A", "Y"]) {
        Err(DotEnvError::MissingVars(vars)) => {
            assert_eq!(vars, vec!["Z".to_string(), "Y".to_string()])
        }
        _ => panic!("expected MissingVars"),
    }
    assert!(env.require(&[]).is_ok());
}

#[test]
fn empty_content_has_no_keys() {
    let env = load("");
    assert!(env.keys().is_empty());
    assert!(env.iter().is_empty());
    assert_eq!(env.get("A"), None);
}

#[test]
fn parse_env_content_keeps_order_and_duplicates() {
    let pairs = parse_env_content("B=2\nA=1\nB=3").unwrap();
    assert_eq!(
        pairs,
        vec![
            ("B".to_string(), "2".to_string()),
            ("A".to_string(), "1".to_string()),
            ("B".to_string(), "3".to_string()),
        ]
    );
}

#[test]
fn interpolate_resolves_in_order() {
    let pairs = vec![
        ("A".to_string(), "${B}-${HOME_DIR}".to_string()),
        ("B".to_string(), "b".to_string()),
    ];
    let process_env = vec![("HOME_DIR".to_string(), "/home/x".to_string())];
    let resolved = interpolate(pairs, &process_env).unwrap();
    assert_eq!(
        resolved,
        vec![
            ("A".to_string(), "b-/home/x".to_string()),
            ("B".to_string(), "b".to_string()),
        ]
    );
}

#[test]
fn conversion_result_outcomes() {
    let value = "x".to_string();
    assert_eq!(conversion_result("K", &value, Some(5u8), "u8").unwrap(), 5u8);
    match conversion_result::<u8>("K", &value, None, "u8") {
        Err(DotEnvError::TypeConversion { key, expected, value }) => {
            assert_eq!((key.as_str(), expected, value.as_str()), ("K", "u8", "x"));
        }
        _ => panic!("expected TypeConversion"),
    }
}

#[test]
fn value_or_default_outcomes() {
    assert_eq!(value_or_default(Some(1), 2), 1);
    assert_eq!(value_or_default(None, 2), 2);
}

#[test]
fn parse_bool_word_cases() {
    assert_eq!(parse_bool_word("YES"), Some(true));
    assert_eq!(parse_bool_word("0"), Some(false));
    assert_eq!(parse_bool_word("nO"), Some(false));
    assert_eq!(parse_bool_word("on"), None);
    assert_eq!(parse_bool_word(""), None);
}

#[test]
fn unicode_whitespace_is_trimmed() {
    let env = load("\u{a0}K\u{3000}=\u{2003}v\u{85}");
    assert_eq!(env.get("K"), Some("v"));
}

#[test]
fn error_messages() {
    let parse = DotEnv::from_str("A=1\nB=\"x", &no_env()).err().unwrap();
    assert_eq!(parse.to_message(), "parse error at line 2: unterminated double-quoted string");
    let env = load("VAL=say \"hi\"\nN=1");
    let missing = env.require(&["X", "N", "Y"]).err().unwrap();
    assert_eq!(missing.to_message(), "missing required variables: X, Y");
    let conversion = env.get_bool("VAL").err().unwrap();
    assert_eq!(conversion.to_message(), "cannot convert VAL=\"say \\\"hi\\\"\" to type bool");
    let cycle = DotEnv::from_str("A=${A}", &no_env()).err().unwrap();
    assert_eq!(cycle.to_message(), "circular reference resolving A: references A");
    let io = DotEnvError::Io(std::io::Error::new(std::io::ErrorKind::Other, "boom"));
    assert_eq!(io.to_message(), "I/O error: boom");
}

#[test]
fn error_message_line_numbers_in_decimal() {
    let mut content = String::new();
    for _ in 0..120 {
        content.push_str("# filler\n");
    }
    content.push_str("X='open");
    let err = DotEnv::from_str(&content, &no_env()).err().unwrap();
    assert_eq!(err.to_message(), "parse error at line 121: unterminated single-quoted string");
}
