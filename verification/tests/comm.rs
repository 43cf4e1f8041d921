use unx::comm::{comm, log_data, prepare_line_iterator, validate_file_name, Column, CommError};
use unx::lines::Source;

fn source(name: &str, content: &str) -> Source {
    Source { name: name.to_string(), content: Some(content.as_bytes().to_vec()) }
}

fn run(a: &str, b: &str, shows: (bool, bool, bool), ignore_case: bool, delimiter: &str) -> Vec<String> {
    comm(&source("a", a), &source("b", b), shows.0, shows.1, shows.2, ignore_case, delimiter).unwrap()
}

#[test]
fn dies_both_stdin() {
    let expected = r#"comm: input files cannot be both STDIN ("-")"#;
    let err = comm(&source("-", ""), &source("-", ""), true, true, true, false, "\t").unwrap_err();
    assert_eq!(err, CommError::BothStdin);
    assert!(err.message().contains(expected));
}

#[test]
fn validate_file_name_lets_one_standard_input_pass() {
    assert_eq!(validate_file_name("-", "-"), Err(CommError::BothStdin));
    assert_eq!(validate_file_name("-", "b"), Ok(()));
    assert_eq!(validate_file_name("a", "-"), Ok(()));
    assert_eq!(validate_file_name("a", "b"), Ok(()));
    assert_eq!(validate_file_name("--", "-"), Ok(()));
}

#[test]
fn comm_reports_a_file_that_could_not_be_opened() {
    let missing = Source { name: "gone".to_string(), content: None };
    let err = comm(&missing, &source("b", ""), true, true, true, false, "\t").unwrap_err();
    assert_eq!(err, CommError::Unreadable("gone".to_string()));
    assert_eq!(err.message(), "comm: gone: cannot be opened");
    let other = Source { name: "lost".to_string(), content: None };
    let err = comm(&missing, &other, true, true, true, false, "\t").unwrap_err();
    assert_eq!(err, CommError::Unreadable("gone".to_string()));
    let err = comm(&source("a", ""), &other, true, true, true, false, "\t").unwrap_err();
    assert_eq!(err, CommError::Unreadable("lost".to_string()));
}

#[test]
fn comm_puts_lines_in_three_columns() {
    assert_eq!(
        run("a\nb\nc\n", "b\nc\nd\n", (true, true, true), false, "\t"),
        vec!["a", "\t\tb", "\t\tc", "\td"]
    );
    assert_eq!(run("a\nb\n", "", (true, true, true), false, "\t"), vec!["a", "b"]);
    assert_eq!(run("", "a\nb\n", (true, true, true), false, "\t"), vec!["\ta", "\tb"]);
    assert_eq!(run("", "", (true, true, true), false, "\t"), Vec::<String>::new());
}

#[test]
fn comm_leaves_out_columns_that_are_not_shown() {
    let (a, b) = ("a\nb\nc\n", "b\nc\nd\n");
    assert_eq!(run(a, b, (false, true, true), false, "\t"), vec!["\tb", "\tc", "d"]);
    assert_eq!(run(a, b, (true, false, true), false, "\t"), vec!["a", "\tb", "\tc"]);
    assert_eq!(run(a, b, (true, true, false), false, "\t"), vec!["a", "\td"]);
    assert_eq!(run(a, b, (false, false, true), false, "\t"), vec!["b", "c"]);
    assert_eq!(run(a, b, (true, false, false), false, "\t"), vec!["a"]);
    assert_eq!(run(a, b, (false, true, false), false, "\t"), vec!["d"]);
    assert_eq!(run(a, b, (false, false, false), false, "\t"), Vec::<String>::new());
}

#[test]
fn comm_writes_the_delimiter_given() {
    assert_eq!(
        run("a\nb\n", "b\nc\n", (true, true, true), false, "::"),
        vec!["a", "::::b", "::c"]
    );
    assert_eq!(run("a\nb\n", "b\nc\n", (true, true, true), false, ""), vec!["a", "b", "c"]);
}

#[test]
fn comm_compares_strings_by_their_bytes() {
    assert_eq!(run("B\na\n", "a\n", (true, true, true), false, "\t"), vec!["B", "\t\ta"]);
    assert_eq!(run("a\nab\n", "ab\nabc\n", (true, true, true), false, "\t"), vec!["a", "\t\tab", "\tabc"]);
    assert_eq!(run("é\n", "z\n", (true, true, true), false, "\t"), vec!["\tz", "é"]);
    assert_eq!(run("b\na\n", "a\n", (true, true, true), false, "\t"), vec!["\ta", "b", "a"]);
}

#[test]
fn comm_ignores_case_by_writing_lower_case() {
    assert_eq!(run("Apple\nB\n", "apple\nc\n", (true, true, true), true, "\t"), vec!["\t\tapple", "b", "\tc"]);
    assert_eq!(run("Apple\n", "apple\n", (true, true, true), false, "\t"), vec!["Apple", "\tapple"]);
}

#[test]
fn prepare_line_iterator_strips_terminators_and_stops_at_broken_text() {
    assert_eq!(prepare_line_iterator(b"a\r\nB\nc", false), vec!["a", "B", "c"]);
    assert_eq!(prepare_line_iterator(b"a\r\nB\nc", true), vec!["a", "b", "c"]);
    assert_eq!(prepare_line_iterator(b"a\n\xff\nc\n", false), vec!["a"]);
    assert_eq!(prepare_line_iterator(b"a\r", false), vec!["a\r"]);
    assert_eq!(prepare_line_iterator(b"", false), Vec::<String>::new());
}

#[test]
fn log_data_indents_by_the_shown_columns_before() {
    assert_eq!(log_data(true, true, true, "\t", Column::Col1("x")), Some("x".to_string()));
    assert_eq!(log_data(true, true, true, "\t", Column::Col2("x")), Some("\tx".to_string()));
    assert_eq!(log_data(true, true, true, "\t", Column::Col3("x")), Some("\t\tx".to_string()));
    assert_eq!(log_data(false, true, true, ",", Column::Col2("x")), Some("x".to_string()));
    assert_eq!(log_data(false, true, true, ",", Column::Col3("x")), Some(",x".to_string()));
    assert_eq!(log_data(true, false, true, ",", Column::Col3("x")), Some(",x".to_string()));
    assert_eq!(log_data(false, false, true, ",", Column::Col3("x")), Some("x".to_string()));
    assert_eq!(log_data(false, true, true, ",", Column::Col1("x")), None);
    assert_eq!(log_data(true, false, true, ",", Column::Col2("x")), None);
    assert_eq!(log_data(true, true, false, ",", Column::Col3("x")), None);
    assert_eq!(log_data(true, true, true, ",", Column::Col1("")), Some(String::new()));
}
