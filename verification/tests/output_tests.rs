use minigrep::output::{format_matches, format_report, parse_matches};
use minigrep::text::{split_lines, strip_bom};
use minigrep::decimal::usize_to_decimal;
use minigrep::{run_search, search, Config};

fn matches_of(pairs: &[(usize, &str)]) -> Vec<(usize, String)> {
    pairs.iter().map(|(n, l)| (*n, l.to_string())).collect()
}

#[test]
fn formats_one_line_per_match() {
    let ms = matches_of(&[(1, "How in the world"), (3, "I don't know")]);
    assert_eq!(format_matches(&ms), "1 How in the world\n3 I don't know\n");
}

#[test]
fn formats_nothing_for_no_matches() {
    assert_eq!(format_matches(&Vec::new()), "");
}

#[test]
fn round_trip_reproduces_the_pairs() {
    let ms = matches_of(&[(1, "alpha"), (2, ""), (12, "beta gamma"), (907, "x=y")]);
    let text = format_matches(&ms);
    assert_eq!(parse_matches(&text), Some(ms));
}

#[test]
fn round_trip_of_search_results() {
    let text = "How in the world\nDoes that make sense?\nI don't know";
    let ms = search("o", text, false);
    let persisted = format_matches(&ms);
    assert_eq!(parse_matches(&persisted), Some(ms));
}

#[test]
fn parse_rejects_a_line_without_digits() {
    assert_eq!(parse_matches("x 1\n"), None);
}

#[test]
fn parse_rejects_a_line_without_text() {
    assert_eq!(parse_matches("12\n"), None);
}

#[test]
fn parse_rejects_an_unrepresentable_number() {
    assert_eq!(parse_matches("99999999999999999999999999999999 a\n"), None);
}

#[test]
fn report_names_the_pattern_when_nothing_matched() {
    let report = format_report("whew", &Vec::new());
    assert_eq!(report, "Provided file doesn't contain the string \"whew\"\n");
}

#[test]
fn report_lists_matches_under_a_header() {
    let ms = matches_of(&[(1, "How in the world")]);
    let report = format_report("how", &ms);
    assert_eq!(
        report,
        "\"how\" was found in the next lines:\n\n[line 1] How in the world\n"
    );
}

#[test]
fn run_search_strips_the_byte_order_mark() {
    let config = Config {
        file_name: String::from("f.txt"),
        search_str: String::from("how"),
        output_file: None,
        match_case: false,
    };
    let out = run_search(&config, "\u{feff}How in the world");
    assert_eq!(
        out.report,
        "\"how\" was found in the next lines:\n\n[line 1] How in the world\n"
    );
    assert_eq!(out.file_output, None);
}

#[test]
fn run_search_renders_the_persisted_form_when_configured() {
    let config = Config {
        file_name: String::from("f.txt"),
        search_str: String::from("o"),
        output_file: Some(String::from("out.txt")),
        match_case: false,
    };
    let out = run_search(&config, "How\nwhy\nnot");
    assert_eq!(out.file_output, Some(String::from("1 How\n3 not\n")));
}

#[test]
fn run_search_respects_the_case_policy() {
    let config = Config {
        file_name: String::from("f.txt"),
        search_str: String::from("how"),
        output_file: None,
        match_case: true,
    };
    let out = run_search(&config, "How in the world");
    assert_eq!(
        out.report,
        "Provided file doesn't contain the string \"how\"\n"
    );
}

#[test]
fn strip_bom_removes_only_leading_marks() {
    assert_eq!(strip_bom("\u{feff}hello"), "hello");
    assert_eq!(strip_bom("\u{feff}\u{feff}hello"), "hello");
    assert_eq!(strip_bom("hello\u{feff}"), "hello\u{feff}");
    assert_eq!(strip_bom(""), "");
}

#[test]
fn split_lines_handles_both_line_endings() {
    assert_eq!(split_lines("a\r\nb\nc"), vec!["a", "b", "c"]);
}

#[test]
fn split_lines_keeps_a_lone_carriage_return() {
    assert_eq!(split_lines("a\rb"), vec!["a\rb"]);
    assert_eq!(split_lines("a\r"), vec!["a\r"]);
}

#[test]
fn split_lines_of_empty_text_is_empty() {
    assert_eq!(split_lines(""), Vec::<String>::new());
}

#[test]
fn split_lines_drops_no_empty_interior_line() {
    assert_eq!(split_lines("a\n\nb"), vec!["a", "", "b"]);
    assert_eq!(split_lines("\n"), vec![""]);
}

#[test]
fn decimal_rendering_is_exact() {
    assert_eq!(usize_to_decimal(0), "0");
    assert_eq!(usize_to_decimal(10), "10");
    assert_eq!(usize_to_decimal(907), "907");
}
