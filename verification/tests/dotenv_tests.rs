use philiprehberger_dotenv::{parse_env_content, DotEnv, DotEnvError};
use std::str::FromStr;

fn parsed<T: FromStr>(s: &str) -> Option<T> {
    s.parse::<T>().ok()
}

fn no_env() -> Vec<(String, String)> {
    Vec::new()
}

fn parse(content: &str) -> DotEnv {
    DotEnv::from_str(content, &no_env()).expect("failed to parse")
}

#[test]
fn test_basic_key_value() {
    let env = parse("FOO=bar\nBAZ=qux");
    assert_eq!(env.get("FOO"), Some("bar"));
    assert_eq!(env.get("BAZ"), Some("qux"));
}

#[test]
fn test_double_quoted_value() {
    let env = parse(r#"GREETING="hello world""#);
    assert_eq!(env.get("GREETING"), Some("hello world"));
}

#[test]
fn test_single_quoted_value() {
    let env = parse("PATH_VAR='/usr/local/bin'");
    assert_eq!(env.get("PATH_VAR"), Some("/usr/local/bin"));
}

#[test]
fn test_escape_sequences_in_double_quotes() {
    let env = parse(r#"MSG="line1\nline2\ttab\\slash\"quote""#);
    assert_eq!(env.get("MSG"), Some("line1\nline2\ttab\\slash\"quote"));
}

#[test]
fn test_single_quotes_no_escapes() {
    let env = parse(r"LITERAL='hello\nworld'");
    assert_eq!(env.get("LITERAL"), Some(r"hello\nworld"));
}

#[test]
fn test_full_line_comment() {
    let env = parse("# this is a comment\nKEY=value");
    assert_eq!(env.get("KEY"), Some("value"));
    assert!(env.keys().len() == 1);
}

#[test]
fn test_inline_comment() {
    let env = parse("KEY=value # this is a comment");
    assert_eq!(env.get("KEY"), Some("value"));
}

#[test]
fn test_export_prefix() {
    let env = parse("export SECRET=hunter2");
    assert_eq!(env.get("SECRET"), Some("hunter2"));
}

#[test]
fn test_empty_value() {
    let env = parse("EMPTY=\nALSO_EMPTY=");
    assert_eq!(env.get("EMPTY"), Some(""));
    assert_eq!(env.get("ALSO_EMPTY"), Some(""));
}

#[test]
fn test_lines_without_equals_skipped() {
    let env = parse("VALID=yes\nINVALID_LINE\nALSO_VALID=true");
    assert_eq!(env.keys().len(), 2);
    assert_eq!(env.get("VALID"), Some("yes"));
    assert_eq!(env.get("ALSO_VALID"), Some("true"));
}

#[test]
fn test_variable_interpolation_simple() {
    let env = parse("HOST=localhost\nURL=http://${HOST}/api");
    assert_eq!(env.get("URL"), Some("http://localhost/api"));
}

#[test]
fn test_variable_interpolation_nested() {
    let env = parse("A=hello\nB=${A}_world\nC=${B}!");
    assert_eq!(env.get("C"), Some("hello_world!"));
}

#[test]
fn test_variable_interpolation_fallback_to_env() {
    // The process environment holds the referenced variable.
    let process_env = vec![("DOTENV_TEST_FALLBACK".to_string(), "from_env".to_string())];
    let env = DotEnv::from_str("REF=${DOTENV_TEST_FALLBACK}", &process_env).expect("failed to parse");
    assert_eq!(env.get("REF"), Some("from_env"));
}

#[test]
fn test_dollar_without_braces_not_expanded() {
    let env = parse("VAL=hello\nREF=$VAL");
    assert_eq!(env.get("REF"), Some("$VAL"));
}

#[test]
fn test_circular_reference_detection() {
    let result = DotEnv::from_str("A=${B}\nB=${A}", &no_env());
    assert!(result.is_err());
    if let Err(DotEnvError::InterpolationError { .. }) = result {
        // expected
    } else {
        panic!("expected InterpolationError");
    }
}

#[test]
fn test_layered_loading() {
    // The contents of two files, the second loaded after the first.
    let layers = vec![
        parse_env_content("A=base_a\nB=base_b\n").unwrap(),
        parse_env_content("B=override_b\nC=new_c\n").unwrap(),
    ];
    let env = DotEnv::from_layers(layers, &no_env()).unwrap();
    assert_eq!(env.get("A"), Some("base_a"));
    assert_eq!(env.get("B"), Some("override_b"));
    assert_eq!(env.get("C"), Some("new_c"));
}

#[test]
fn test_get_as_u16() {
    let env = parse("PORT=8080");
    let port: u16 = env.get_as("PORT", "u16", parsed::<u16>).unwrap();
    assert_eq!(port, 8080);
}

#[test]
fn test_get_as_invalid_type() {
    let env = parse("PORT=not_a_number");
    let result: Result<u16, _> = env.get_as("PORT", "u16", parsed::<u16>);
    assert!(result.is_err());
}

#[test]
fn test_get_bool_variants() {
    let env = parse("A=true\nB=false\nC=1\nD=0\nE=yes\nF=no\nG=TRUE\nH=Yes");
    assert!(env.get_bool("A").unwrap());
    assert!(!env.get_bool("B").unwrap());
    assert!(env.get_bool("C").unwrap());
    assert!(!env.get_bool("D").unwrap());
    assert!(env.get_bool("E").unwrap());
    assert!(!env.get_bool("F").unwrap());
    assert!(env.get_bool("G").unwrap());
    assert!(env.get_bool("H").unwrap());
}

#[test]
fn test_get_bool_invalid() {
    let env = parse("VAL=maybe");
    assert!(env.get_bool("VAL").is_err());
}

#[test]
fn test_require_all_present() {
    let env = parse("A=1\nB=2\nC=3");
    assert!(env.require(&["A", "B", "C"]).is_ok());
}

#[test]
fn test_require_missing() {
    let env = parse("A=1");
    let result = env.require(&["A", "B", "C"]);
    match result {
        Err(DotEnvError::MissingVars(vars)) => {
            assert!(vars.contains(&"B".to_string()));
            assert!(vars.contains(&"C".to_string()));
            assert_eq!(vars.len(), 2);
        }
        _ => panic!("expected MissingVars error"),
    }
}

#[test]
fn test_get_list() {
    let env = parse("HOSTS=a,b,c");
    let list = env.get_list("HOSTS", ',');
    assert_eq!(list, vec!["a", "b", "c"]);
}

#[test]
fn test_get_list_with_spaces() {
    let env = parse("ITEMS=one , two , three");
    let list = env.get_list("ITEMS", ',');
    assert_eq!(list, vec!["one", "two", "three"]);
}

#[test]
fn test_get_list_missing_key() {
    let env = parse("OTHER=val");
    let list = env.get_list("MISSING", ',');
    assert!(list.is_empty());
}

#[test]
fn test_get_or_default() {
    let env = parse("A=hello");
    assert_eq!(env.get_or("A", "default"), "hello");
    assert_eq!(env.get_or("MISSING", "fallback"), "fallback");
}

#[test]
fn test_keys_and_iter() {
    let env = parse("X=1\nY=2");
    let mut keys: Vec<&str> = env.keys();
    keys.sort();
    assert_eq!(keys, vec!["X", "Y"]);

    let mut pairs: Vec<(&str, &str)> = env.iter();
    pairs.sort();
    assert_eq!(pairs, vec![("X", "1"), ("Y", "2")]);
}

#[test]
fn test_whitespace_around_key() {
    let env = parse("  KEY  =value");
    assert_eq!(env.get("KEY"), Some("value"));
}

#[test]
fn test_get_or_default_returns_parsed_value() {
    let env = parse("PORT=8080\nDEBUG=true\nRATIO=3.14");
    assert_eq!(env.get_or_default("PORT", 3000, parsed::<u16>), 8080);
    assert_eq!(env.get_or_default("DEBUG", false, parsed::<bool>), true);
    assert_eq!(env.get_or_default("RATIO", 1.0, parsed::<f64>), 3.14);
}

#[test]
fn test_get_or_default_returns_default_on_missing() {
    let env = parse("OTHER=value");
    assert_eq!(env.get_or_default("PORT", 3000, parsed::<u16>), 3000);
    assert_eq!(env.get_or_default("DEBUG", true, parsed::<bool>), true);
    assert_eq!(env.get_or_default("NAME", "app".to_string(), parsed::<String>), "app");
}

#[test]
fn test_get_or_default_returns_default_on_parse_failure() {
    let env = parse("PORT=not_a_number\nDEBUG=maybe");
    assert_eq!(env.get_or_default("PORT", 3000, parsed::<u16>), 3000);
    assert_eq!(env.get_or_default("DEBUG", false, parsed::<bool>), false);
}

#[test]
fn test_interpolation_multiple_refs() {
    let env = parse("HOST=localhost\nPORT=5432\nURL=postgres://${HOST}:${PORT}/db");
    assert_eq!(env.get("URL"), Some("postgres://localhost:5432/db"));
}
