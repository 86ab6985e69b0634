use minigrep::{Config, SearchError};

fn args(list: &[&str]) -> Vec<String> {
    list.iter().map(|s| s.to_string()).collect()
}

#[test]
fn resolves_required_fields_with_defaults() {
    let config = Config::build(args(&["--file-name=f.txt", "--search-str=how"])).unwrap();
    assert_eq!(config.file_name, "f.txt");
    assert_eq!(config.search_str, "how");
    assert!(!config.match_case);
    assert!(config.output_file.is_none());
}

#[test]
fn resolves_all_fields() {
    let config = Config::build(args(&[
        "prog",
        "--file-name=f.txt",
        "--search-str=how",
        "--match-case",
        "--output-file=out.txt",
    ]))
    .unwrap();
    assert_eq!(config.file_name, "f.txt");
    assert_eq!(config.search_str, "how");
    assert!(config.match_case);
    assert_eq!(config.output_file, Some(String::from("out.txt")));
}

#[test]
fn missing_file_name_is_reported() {
    let err = Config::build(args(&["--search-str=how"])).unwrap_err();
    match err {
        SearchError::MissingArgument(name) => assert_eq!(name, "file-name"),
        _ => panic!("expected a missing-argument error"),
    }
}

#[test]
fn missing_search_str_is_reported() {
    let err = Config::build(args(&["--file-name=f.txt"])).unwrap_err();
    match err {
        SearchError::MissingArgument(name) => assert_eq!(name, "search-str"),
        _ => panic!("expected a missing-argument error"),
    }
}

#[test]
fn file_name_without_value_is_malformed() {
    let err = Config::build(args(&["--file-name", "--search-str=how"])).unwrap_err();
    match err {
        SearchError::MalformedArgument(name) => assert_eq!(name, "file-name"),
        _ => panic!("expected a malformed-argument error"),
    }
}

#[test]
fn output_file_without_value_is_malformed() {
    let err =
        Config::build(args(&["--file-name=f.txt", "--search-str=how", "--output-file"])).unwrap_err();
    match err {
        SearchError::MalformedArgument(name) => assert_eq!(name, "output-file"),
        _ => panic!("expected a malformed-argument error"),
    }
}

#[test]
fn match_case_flag_may_carry_a_value() {
    let config =
        Config::build(args(&["--file-name=f.txt", "--search-str=how", "--match-case=yes"])).unwrap();
    assert!(config.match_case);
}

#[test]
fn value_stops_at_a_second_equals_sign() {
    let config = Config::build(args(&["--file-name=a=b", "--search-str=how"])).unwrap();
    assert_eq!(config.file_name, "a");
}

#[test]
fn empty_value_is_accepted() {
    let config = Config::build(args(&["--file-name=", "--search-str=how"])).unwrap();
    assert_eq!(config.file_name, "");
}

#[test]
fn longer_flag_sharing_a_prefix_does_not_match() {
    let err =
        Config::build(args(&["--file-name-extra=f.txt", "--search-str=how"])).unwrap_err();
    match err {
        SearchError::MissingArgument(name) => assert_eq!(name, "file-name"),
        _ => panic!("expected a missing-argument error"),
    }
}

#[test]
fn first_matching_token_wins() {
    let config =
        Config::build(args(&["--file-name=one.txt", "--file-name=two.txt", "--search-str=x"]))
            .unwrap();
    assert_eq!(config.file_name, "one.txt");
}

#[test]
fn get_arg_reads_a_value() {
    let r = Config::get_arg(&args(&["--file-name=f.txt"]), "file-name", false, false);
    assert_eq!(r.unwrap(), Some(String::from("f.txt")));
}

#[test]
fn get_arg_absent_optional_is_none() {
    let r = Config::get_arg(&args(&["--file-name=f.txt"]), "output-file", false, true);
    assert_eq!(r.unwrap(), None);
}

#[test]
fn get_arg_bare_flag_is_present() {
    let r = Config::get_arg(&args(&["--match-case"]), "match-case", true, true);
    assert_eq!(r.unwrap(), Some(String::new()));
}

#[test]
fn describe_names_the_missing_field() {
    let msg = SearchError::MissingArgument(String::from("file-name")).describe();
    assert_eq!(msg, "file-name is not provided");
}

#[test]
fn describe_explains_the_expected_format() {
    let msg = SearchError::MalformedArgument(String::from("file-name")).describe();
    assert_eq!(
        msg,
        "Unable to parse file-name, provide value in format --arg-name=arg-value, e.g. --file-name=superfile.txt"
    );
}

#[test]
fn describe_carries_io_causes() {
    let msg = SearchError::FileReadError(String::from("gone")).describe();
    assert_eq!(msg, "Unable to read the file specified: gone");
    let msg = SearchError::FileWriteError(String::from("full")).describe();
    assert_eq!(msg, "Unable to write to file: full");
}
