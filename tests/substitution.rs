use env_replacer::run::{
    exit_code, glob_pattern, mapping_from_vars, on_entry_error, parse_glob, plan_files, process_content,
    EnvReplacerError,
};
use env_replacer::substitute::replace_tokens;
use env_replacer::tokens::{chars_of, is_name_char_exec, token_len_at, tokens_from_string, unknown_tokens};
use env_replacer::vars::{has_prefix, VarMap};

fn env(pairs: &[(&str, &str)]) -> Vec<(String, String)> {
    pairs.iter().map(|(k, v)| (k.to_string(), v.to_string())).collect()
}

fn mapping(pairs: &[(&str, &str)]) -> VarMap {
    match mapping_from_vars(&env(pairs), &"APP_".to_string()) {
        Ok(m) => m,
        Err(e) => panic!("{}", e.message()),
    }
}

fn sorted(mut v: Vec<String>) -> Vec<String> {
    v.sort();
    v
}

#[test]
fn hello_world_is_substituted() {
    let m = mapping(&[("APP_NAME", "World"), ("HOME", "/root")]);
    let out = process_content(&m, &"greeting.txt".to_string(), &"Hello {{APP_NAME}}!".to_string());
    match out {
        Ok(c) => assert_eq!(c, "Hello World!"),
        Err(e) => panic!("{}", e.message()),
    }
    assert_eq!(exit_code(&Ok(())), 0);
}

#[test]
fn unknown_token_fails_naming_the_file() {
    let m = mapping(&[("APP_NAME", "World")]);
    let content = "{{APP_NAME}} and {{UNKNOWN}}".to_string();
    let out = process_content(&m, &"conf/app.txt".to_string(), &content);
    match out {
        Err(EnvReplacerError::MissingTokens { path }) => assert_eq!(path, "conf/app.txt"),
        _ => panic!("expected a coverage error"),
    }
    assert_eq!(content, "{{APP_NAME}} and {{UNKNOWN}}");
    let err = Err(EnvReplacerError::MissingTokens { path: "conf/app.txt".to_string() });
    assert_eq!(exit_code(&err), 65);
}

#[test]
fn text_without_tokens_is_unchanged() {
    let m = mapping(&[("APP_A", "x")]);
    for text in ["", "plain text", "{ {APP_A} }", "{{}}", "{APP_A}", "{{APP-A}}", "}}APP_A{{"] {
        let out = process_content(&m, &"f".to_string(), &text.to_string());
        match out {
            Ok(c) => assert_eq!(c, text),
            Err(e) => panic!("{}", e.message()),
        }
    }
}

#[test]
fn every_occurrence_is_replaced() {
    let m = mapping(&[("APP_A", "1"), ("APP_B", "two")]);
    let mut s = "{{APP_A}}-{{APP_B}}-{{APP_A}}{{APP_A}}".to_string();
    replace_tokens(&m, &mut s);
    assert_eq!(s, "1-two-11");
    assert!(!s.contains("{{APP_A}}"));
}

#[test]
fn unknown_tokens_are_left_by_replace() {
    let m = mapping(&[("APP_A", "v")]);
    let mut s = "{{APP_A}} {{OTHER}} {{APP_A}}".to_string();
    replace_tokens(&m, &mut s);
    assert_eq!(s, "v {{OTHER}} v");
}

#[test]
fn braces_around_tokens_are_kept() {
    let m = mapping(&[("APP_A", "v")]);
    let mut s = "{{{APP_A}}} {{{{APP_A}}}}".to_string();
    replace_tokens(&m, &mut s);
    assert_eq!(s, "{v} {{v}}");
}

#[test]
fn values_are_not_scanned_again() {
    let m = mapping(&[("APP_A", "{{APP_B}}"), ("APP_B", "b")]);
    let mut s = "x{{APP_A}}y".to_string();
    replace_tokens(&m, &mut s);
    assert_eq!(s, "x{{APP_B}}y");
}

#[test]
fn second_run_keeps_first_result() {
    let m = mapping(&[("APP_NAME", "World")]);
    let path = "f".to_string();
    let once = process_content(&m, &path, &"Hi {{APP_NAME}}, {{APP_NAME}}.".to_string());
    let once = match once {
        Ok(c) => c,
        Err(e) => panic!("{}", e.message()),
    };
    let twice = match process_content(&m, &path, &once) {
        Ok(c) => c,
        Err(e) => panic!("{}", e.message()),
    };
    assert_eq!(once, "Hi World, World.");
    assert_eq!(twice, once);
}

#[test]
fn empty_mapping_is_a_configuration_error() {
    let r = mapping_from_vars(&env(&[("HOME", "/root"), ("PATH", "/bin")]), &"APP_".to_string());
    match r {
        Err(EnvReplacerError::NoVariables { prefix }) => assert_eq!(prefix, "APP_"),
        _ => panic!("expected a configuration error"),
    }
    let r = mapping_from_vars(&Vec::new(), &"APP_".to_string());
    match r {
        Err(e) => assert_eq!(e.message(), "Could not find any env vars starting with \"APP_\""),
        Ok(_) => panic!("expected a configuration error"),
    }
}

#[test]
fn mapping_keeps_prefixed_names_and_last_value() {
    let m = mapping(&[("APP_A", "1"), ("OTHER", "2"), ("APP_A", "3"), ("APP_B", "4"), ("AP", "5")]);
    assert_eq!(m.len(), 2);
    assert_eq!(m.get(&"APP_A".to_string()), Some(&"3".to_string()));
    assert_eq!(m.get(&"APP_B".to_string()), Some(&"4".to_string()));
    assert_eq!(m.get(&"OTHER".to_string()), None);
    assert_eq!(sorted(m.names()), vec!["APP_A".to_string(), "APP_B".to_string()]);
}

#[test]
fn custom_prefix_selects_variables() {
    let r = mapping_from_vars(&env(&[("APP_A", "1"), ("MY_B", "2")]), &"MY_".to_string());
    let m = match r {
        Ok(m) => m,
        Err(e) => panic!("{}", e.message()),
    };
    assert_eq!(m.names(), vec!["MY_B".to_string()]);
    let empty_prefix = mapping_from_vars(&env(&[("X", "1")]), &String::new());
    assert!(matches!(empty_prefix, Ok(ref m) if m.len() == 1));
}

#[test]
fn var_map_insert_replaces() {
    let mut m = VarMap::new();
    assert_eq!(m.len(), 0);
    m.insert("K".to_string(), "a".to_string());
    m.insert("K".to_string(), "b".to_string());
    assert_eq!(m.len(), 1);
    assert_eq!(m.get(&"K".to_string()), Some(&"b".to_string()));
}

#[test]
fn tokens_are_extracted_once_each() {
    let s = "{{B}} {{A_1}} {{B}} {{}} {{a-b}} {{{C}}} {{D}".to_string();
    let t = sorted(tokens_from_string(&s));
    assert_eq!(t, vec!["A_1".to_string(), "B".to_string(), "C".to_string()]);
    assert!(tokens_from_string(&String::new()).is_empty());
    let u = tokens_from_string(&"é{{Ünï}} {{ok}}".to_string());
    assert_eq!(u, vec!["ok".to_string()]);
}

#[test]
fn unknown_tokens_is_a_difference() {
    let tokens = vec!["A".to_string(), "B".to_string(), "C".to_string()];
    let names = vec!["B".to_string(), "D".to_string()];
    assert_eq!(unknown_tokens(&tokens, &names), vec!["A".to_string(), "C".to_string()]);
    assert!(unknown_tokens(&tokens, &tokens).is_empty());
}

#[test]
fn token_length_at_position() {
    let s: Vec<char> = "x{{AB}}y".chars().collect();
    assert_eq!(token_len_at(&s, 1), Some(2));
    assert_eq!(token_len_at(&s, 0), None);
    assert_eq!(token_len_at(&s, 2), None);
    assert_eq!(token_len_at(&s, 8), None);
    let u: Vec<char> = "{{ü_1}}{{é}}".chars().collect();
    assert_eq!(token_len_at(&u, 0), None);
    assert_eq!(chars_of("a{é}"), vec!['a', '{', 'é', '}']);
    assert!(is_name_char_exec('_'));
    assert!(is_name_char_exec('Z'));
    assert!(!is_name_char_exec('-'));
    assert!(!is_name_char_exec('{'));
}

#[test]
fn prefix_test() {
    assert!(has_prefix("APP_NAME", "APP_"));
    assert!(has_prefix("APP_", "APP_"));
    assert!(has_prefix("X", ""));
    assert!(!has_prefix("AP", "APP_"));
    assert!(!has_prefix("app_NAME", "APP_"));
}

#[test]
fn glob_syntax_is_checked() {
    match parse_glob("/templates/*.txt") {
        Ok(g) => assert_eq!(g, "/templates/*.txt"),
        Err(e) => panic!("{}", e.message()),
    }
    assert!(matches!(parse_glob("/a/**b"), Err(EnvReplacerError::GlobSyntax)));
    assert!(matches!(parse_glob("abc[def"), Err(EnvReplacerError::GlobSyntax)));
    assert!(matches!(parse_glob("***"), Err(EnvReplacerError::GlobSyntax)));
    assert_eq!(glob_pattern("/home/u", "/*.conf"), "/home/u/*.conf");
}

#[test]
fn entry_errors_follow_the_toggle() {
    assert!(on_entry_error(true).is_ok());
    assert!(matches!(on_entry_error(false), Err(EnvReplacerError::GlobEntry)));
}

#[test]
fn messages_name_the_file() {
    let e = EnvReplacerError::WriteFailed { path: "a.txt".to_string() };
    assert_eq!(e.message(), "Failed to update file: a.txt");
    let e = EnvReplacerError::ReadFailed { path: "b.txt".to_string() };
    assert_eq!(e.message(), "Failed to read file: b.txt");
    let e = EnvReplacerError::MissingTokens { path: "c.txt".to_string() };
    assert_eq!(e.message(), "Missing variables for tokens in file: c.txt");
    assert_eq!(EnvReplacerError::GlobSyntax.message(), "Failed to parse glob");
    assert_eq!(EnvReplacerError::GlobRead.message(), "Failed to read glob pattern");
    assert_eq!(EnvReplacerError::GlobEntry.message(), "Failed to unwrap one of the glob entries");
    assert_eq!(
        EnvReplacerError::CurrentDir.message(),
        "Failed to retrieve the current working directory"
    );
    assert_eq!(
        EnvReplacerError::CurrentDirNotUnicode.message(),
        "Failed to convert the current working directory path to a string"
    );
}

#[test]
fn all_files_planned_in_order() {
    let m = mapping(&[("APP_X", "1")]);
    let files = vec![
        ("a.txt".to_string(), "{{APP_X}}".to_string()),
        ("b.txt".to_string(), "none".to_string()),
        ("c.txt".to_string(), "[{{APP_X}}{{APP_X}}]".to_string()),
    ];
    match plan_files(&m, &files) {
        Ok(out) => assert_eq!(out, vec!["1".to_string(), "none".to_string(), "[11]".to_string()]),
        Err(e) => panic!("{}", e.message()),
    }
    assert!(matches!(plan_files(&m, &Vec::new()), Ok(ref v) if v.is_empty()));
}

#[test]
fn first_uncovered_file_is_reported() {
    let m = mapping(&[("APP_X", "1")]);
    let files = vec![
        ("a.txt".to_string(), "{{APP_X}}".to_string()),
        ("b.txt".to_string(), "{{APP_Y}}".to_string()),
        ("c.txt".to_string(), "{{APP_Z}}".to_string()),
    ];
    match plan_files(&m, &files) {
        Err(EnvReplacerError::MissingTokens { path }) => assert_eq!(path, "b.txt"),
        _ => panic!("expected a coverage error"),
    }
}
