use philiprehberger_dotenv::{parse_env_content, DotEnv, DotEnvError};

fn no_env() -> Vec<(String, String)> {
    Vec::new()
}

#[test]
fn written_assignment_is_read_back() {
    let env = DotEnv::from_str("APP_NAME=my-app", &no_env()).unwrap();
    assert_eq!(env.iter(), vec![("APP_NAME", "my-app")]);
}

#[test]
fn export_prefix_is_optional() {
    let with = parse_env_content("export  KEY = some value ").unwrap();
    let without = parse_env_content("KEY = some value ").unwrap();
    assert_eq!(with, without);
}

#[test]
fn single_quotes_are_literal() {
    let pairs = parse_env_content(r"A='a\tb ${X} # c' tail").unwrap();
    assert_eq!(pairs, vec![("A".to_string(), r"a\tb ${X} # c".to_string())]);
}

#[test]
fn double_quotes_without_escapes_are_literal() {
    let env = DotEnv::from_str("A=\"  spaced # not a comment \"", &no_env()).unwrap();
    assert_eq!(env.get("A"), Some("  spaced # not a comment "));
}

#[test]
fn comment_and_equals_free_lines_give_nothing() {
    assert!(parse_env_content("  # A=1\nNOTHING HERE").unwrap().is_empty());
}

#[test]
fn later_file_overrides_earlier() {
    let mut pairs = parse_env_content("A=1\nB=${A}").unwrap();
    pairs.extend(parse_env_content("A=2").unwrap());
    let env = DotEnv::from_pairs(pairs, &no_env()).unwrap();
    assert_eq!(env.get("A"), Some("2"));
    assert_eq!(env.get("B"), Some("2"));
}

#[test]
fn reference_is_replaced_by_value() {
    let env = DotEnv::from_str("NAME=world\nGREETING=hello ${NAME}!", &no_env()).unwrap();
    assert_eq!(env.get("GREETING"), Some("hello world!"));
}

#[test]
fn plain_values_are_unchanged() {
    let env = DotEnv::from_str("A=$HOME{x}$", &no_env()).unwrap();
    assert_eq!(env.get("A"), Some("$HOME{x}$"));
}

#[test]
fn loaded_keys_are_the_written_keys() {
    let env = DotEnv::from_str("X=1\nY=${X}\nX=2", &no_env()).unwrap();
    let mut keys = env.keys();
    keys.sort();
    assert_eq!(keys, vec!["X", "Y"]);
}

#[test]
fn require_ok_exactly_when_all_present() {
    let env = DotEnv::from_str("A=1\nB=2", &no_env()).unwrap();
    assert!(env.require(&["A", "B"]).is_ok());
    match env.require(&["A", "C"]) {
        Err(DotEnvError::MissingVars(vars)) => assert_eq!(vars, vec!["C".to_string()]),
        _ => panic!("expected MissingVars"),
    }
}

#[test]
fn list_pieces_rejoin() {
    let env = DotEnv::from_str("L=a;b;;c", &no_env()).unwrap();
    let list = env.get_list("L", ';');
    assert_eq!(list.join(";"), "a;b;;c");
    assert!(list.iter().all(|p| !p.contains(';')));
}

#[test]
fn bool_ignores_case() {
    let env = DotEnv::from_str("A=yEs\nB=YES", &no_env()).unwrap();
    assert_eq!(env.get_bool("A").unwrap(), env.get_bool("B").unwrap());
}

#[test]
fn order_of_distinct_keys_does_not_matter() {
    let forward = vec![
        ("URL".to_string(), "${HOST}/x".to_string()),
        ("HOST".to_string(), "h".to_string()),
    ];
    let backward = vec![
        ("HOST".to_string(), "h".to_string()),
        ("URL".to_string(), "${HOST}/x".to_string()),
    ];
    let a = DotEnv::from_pairs(forward, &no_env()).unwrap();
    let b = DotEnv::from_pairs(backward, &no_env()).unwrap();
    let mut pa = a.iter();
    let mut pb = b.iter();
    pa.sort();
    pb.sort();
    assert_eq!(pa, pb);
    assert_eq!(a.get("URL"), Some("h/x"));
}

#[test]
fn list_has_one_piece_more_than_separators() {
    let env = DotEnv::from_str("L=,a,,b", &no_env()).unwrap();
    assert_eq!(env.get_list("L", ',').len(), 4);
}

#[test]
fn joined_contents_parse_as_consecutive_files() {
    let a = "A=1\nB=2";
    let b = "C=3\nD='x";
    let mut separate = parse_env_content(a).unwrap();
    separate.extend(parse_env_content("C=3").unwrap());
    assert_eq!(parse_env_content("A=1\nB=2\nC=3").unwrap(), separate);
    match parse_env_content(&format!("{a}\n{b}")) {
        Err(DotEnvError::Parse { line, .. }) => assert_eq!(line, 4),
        _ => panic!("expected a parse error"),
    }
}

#[test]
fn failure_exactly_on_cycles() {
    assert!(DotEnv::from_str("A=${B}\nB=${C}\nC=${A}", &no_env()).is_err());
    assert!(DotEnv::from_str("A=${B}${B}\nB=${UNDEFINED}", &no_env()).is_ok());
    assert!(DotEnv::from_str("A=x\nB=${A}\nC=${B}${A}", &no_env()).is_ok());
}

#[test]
fn io_error_converts() {
    let err: DotEnvError = std::io::Error::new(std::io::ErrorKind::NotFound, "gone").into();
    assert!(matches!(err, DotEnvError::Io(_)));
}

#[test]
fn get_or_default_agrees_with_get_as() {
    fn parsed<T: std::str::FromStr>(s: &str) -> Option<T> {
        s.parse::<T>().ok()
    }
    let env = DotEnv::from_str("DEBUG=yes\nPORT=80", &no_env()).unwrap();
    assert!(env.get_as("DEBUG", "bool", parsed::<bool>).is_err());
    assert_eq!(env.get_or_default("DEBUG", false, parsed::<bool>), false);
    assert_eq!(env.get_bool("DEBUG").unwrap(), true);
    assert_eq!(env.get_as("PORT", "u16", parsed::<u16>).unwrap(), 80);
    assert_eq!(env.get_or_default("PORT", 1, parsed::<u16>), 80);
}

#[test]
fn keys_are_the_first_components_of_iter() {
    let env = DotEnv::from_str("B=2\nA=1\nB=3", &no_env()).unwrap();
    let firsts: Vec<&str> = env.iter().iter().map(|(k, _)| *k).collect();
    assert_eq!(env.keys(), firsts);
    for (k, v) in env.iter() {
        assert_eq!(env.get(k), Some(v));
    }
}
