use unx::cat::{cat, handle_file, CatFlags};
use unx::lines::Source;

fn source(name: &str, content: &[u8]) -> Source {
    Source { name: name.to_string(), content: Some(content.to_vec()) }
}

fn flags(number_lines: bool, number_nonblank_lines: bool, squeeze_blank_lines: bool) -> CatFlags {
    CatFlags { number_lines, number_nonblank_lines, squeeze_blank_lines }
}

#[test]
fn cat_writes_the_lines_as_they_are() {
    let files = vec![source("a", b"one\n\ntwo\r\nthree")];
    let out = cat(&files, false, false, false);
    assert!(out.complete);
    assert_eq!(out.lines, vec!["one", "", "two", "three"]);
}

#[test]
fn cat_numbers_every_line() {
    let files = vec![source("a", b"one\n\ntwo\n")];
    let out = cat(&files, true, false, false);
    assert_eq!(out.lines, vec!["     1\tone", "     2\t", "     3\ttwo"]);
}

#[test]
fn cat_numbers_the_lines_that_are_not_empty() {
    let files = vec![source("a", b"one\n\ntwo\n \n")];
    let out = cat(&files, false, true, false);
    assert_eq!(out.lines, vec!["     1\tone", "", "     2\ttwo", "     3\t "]);
}

#[test]
fn cat_squeezes_empty_lines() {
    let files = vec![source("a", b"\n\none\n\n\n\ntwo\n\n")];
    assert_eq!(cat(&files, false, false, true).lines, vec!["one", "", "two", ""]);
    assert_eq!(cat(&files, true, false, true).lines, vec!["     1\tone", "     2\t", "     3\ttwo", "     4\t"]);
    assert_eq!(cat(&files, false, true, true).lines, vec!["     1\tone", "", "     2\ttwo", ""]);
}

#[test]
fn cat_numbers_run_on_from_file_to_file() {
    let files = vec![
        source("a", b"one\ntwo\n"),
        Source { name: "missing".to_string(), content: None },
        source("b", b"\nthree\n"),
    ];
    let out = cat(&files, true, false, true);
    assert!(out.complete);
    assert_eq!(out.lines, vec!["     1\tone", "     2\ttwo", "     3\tthree"]);
}

#[test]
fn cat_numbers_wider_than_the_field() {
    let mut line_num = 999_998;
    let out = handle_file(b"a\nb\nc\n", flags(true, false, false), &mut line_num);
    assert_eq!(out.lines, vec!["999999\ta", "1000000\tb", "1000001\tc"]);
    assert_eq!(line_num, 1_000_001);
}

#[test]
fn cat_ends_at_a_file_that_is_not_text() {
    let files = vec![source("a", b"one\n"), source("b", b"two\n\xff\nthree\n"), source("c", b"four\n")];
    let out = cat(&files, true, false, false);
    assert!(!out.complete);
    assert_eq!(out.lines, vec!["     1\tone", "     2\ttwo"]);
}

#[test]
fn handle_file_carries_the_line_number_on() {
    let mut line_num = 7;
    let out = handle_file(b"a\n\nb\n", flags(false, true, false), &mut line_num);
    assert!(out.complete);
    assert_eq!(out.lines, vec!["     8\ta", "", "     9\tb"]);
    assert_eq!(line_num, 9);
    let out = handle_file(b"", flags(true, false, false), &mut line_num);
    assert!(out.lines.is_empty());
    assert_eq!(line_num, 9);
}
