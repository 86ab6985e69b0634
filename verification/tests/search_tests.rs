use minigrep::search;

const SAMPLE_TEXT: &str = "How in the world\nDoes that make sense?\nI don't know";

fn tuple_to_lines(result: Vec<(usize, String)>) -> Vec<String> {
    result.iter().map(|x| x.1.clone()).collect()
}

#[test]
fn successful_search() {
    let search_str = "how";
    let result = tuple_to_lines(search(search_str, SAMPLE_TEXT, false));

    assert_eq!(result, vec!["How in the world"]);
}

#[test]
fn failed_search() {
    let search_str = "whew";
    let result = tuple_to_lines(search(search_str, SAMPLE_TEXT, false));

    assert_eq!(result, Vec::<String>::new());
}

#[test]
fn successful_case_insensitive_search() {
    let search_str = "How";
    let result = tuple_to_lines(search(search_str, SAMPLE_TEXT, true));

    assert_eq!(result, vec!["How in the world"]);
}

#[test]
fn failed_case_insensitive_search() {
    let search_str = "how";
    let result = tuple_to_lines(search(search_str, SAMPLE_TEXT, true));

    assert_eq!(result, Vec::<String>::new());
}

#[test]
fn search_reports_line_numbers() {
    let result = search("how", SAMPLE_TEXT, false);
    assert_eq!(result, vec![(1, String::from("How in the world"))]);
}

#[test]
fn case_sensitive_exact_hit() {
    let result = search("How", SAMPLE_TEXT, true);
    assert_eq!(result, vec![(1, String::from("How in the world"))]);
}

#[test]
fn case_sensitive_misses_wrong_case() {
    let result = search("how", SAMPLE_TEXT, true);
    assert_eq!(result, Vec::<(usize, String)>::new());
}

#[test]
fn absent_pattern_matches_nothing() {
    let result = search("xyz", SAMPLE_TEXT, false);
    assert_eq!(result, Vec::<(usize, String)>::new());
}

#[test]
fn uppercase_pattern_matches_case_insensitively() {
    let result = search("hOW", SAMPLE_TEXT, false);
    assert_eq!(result, vec![(1, String::from("How in the world"))]);
}

#[test]
fn empty_pattern_matches_every_line() {
    let result = search("", SAMPLE_TEXT, false);
    assert_eq!(
        result,
        vec![
            (1, String::from("How in the world")),
            (2, String::from("Does that make sense?")),
            (3, String::from("I don't know")),
        ]
    );
    let result = search("", SAMPLE_TEXT, true);
    assert_eq!(result.len(), 3);
}

#[test]
fn multiple_matching_lines_stay_in_order() {
    let result = search("o", SAMPLE_TEXT, false);
    assert_eq!(
        result,
        vec![
            (1, String::from("How in the world")),
            (2, String::from("Does that make sense?")),
            (3, String::from("I don't know")),
        ]
    );
}

#[test]
fn line_matched_once_despite_repeats() {
    let result = search("o", "o o o o", false);
    assert_eq!(result, vec![(1, String::from("o o o o"))]);
}

#[test]
fn empty_text_has_no_matches() {
    let result = search("how", "", false);
    assert_eq!(result, Vec::<(usize, String)>::new());
}

#[test]
fn crlf_line_endings_are_handled() {
    let result = search("b", "a\r\nb\r\nc", false);
    assert_eq!(result, vec![(2, String::from("b"))]);
}

#[test]
fn trailing_newline_adds_no_line() {
    let result = search("", "a\nb\n", false);
    assert_eq!(result, vec![(1, String::from("a")), (2, String::from("b"))]);
}
