use unx::lines::{
    copy_bytes, read_first_lines, read_lines, sources_fit, split_lines, strip_terminator,
    terminator_start, Source,
};
use unx::logging::{display_error, display_file_error, display_file_header};
use unx::text::{
    chars_of, decimal_chars, justify_right, parse_numeral, push_chars, push_str, same_chars,
    slice_chars, string_of,
};

fn chars(text: &str) -> Vec<char> {
    text.chars().collect()
}

#[test]
fn chars_and_strings_convert_both_ways() {
    assert_eq!(chars_of("aé€"), vec!['a', 'é', '€']);
    assert_eq!(string_of(&vec!['a', 'é', '€']), "aé€");
    assert_eq!(chars_of(""), Vec::<char>::new());
    assert_eq!(string_of(&Vec::new()), "");
}

#[test]
fn same_chars_compares_in_full() {
    assert!(same_chars(&chars("abc"), &chars("abc")));
    assert!(!same_chars(&chars("abc"), &chars("abd")));
    assert!(!same_chars(&chars("abc"), &chars("ab")));
    assert!(same_chars(&chars(""), &chars("")));
}

#[test]
fn pushing_appends() {
    let mut out = chars("ab");
    push_chars(&mut out, &chars("cd"));
    push_str(&mut out, "é");
    assert_eq!(out, chars("abcdé"));
    assert_eq!(slice_chars(&out, 1, 3), chars("bc"));
    assert_eq!(slice_chars(&out, 2, 2), chars(""));
}

#[test]
fn decimal_chars_writes_numbers() {
    assert_eq!(decimal_chars(0), chars("0"));
    assert_eq!(decimal_chars(7), chars("7"));
    assert_eq!(decimal_chars(10), chars("10"));
    assert_eq!(decimal_chars(1203), chars("1203"));
    assert_eq!(decimal_chars(u64::MAX), chars("18446744073709551615"));
}

#[test]
fn justify_right_fills_with_spaces() {
    assert_eq!(justify_right(&chars("42"), 6), chars("    42"));
    assert_eq!(justify_right(&chars("42"), 2), chars("42"));
    assert_eq!(justify_right(&chars("42"), 1), chars("42"));
    assert_eq!(justify_right(&chars(""), 3), chars("   "));
}

#[test]
fn parse_numeral_reads_digits_up_to_a_limit() {
    assert_eq!(parse_numeral(&chars("0"), 10), Some(0));
    assert_eq!(parse_numeral(&chars("10"), 10), Some(10));
    assert_eq!(parse_numeral(&chars("11"), 10), None);
    assert_eq!(parse_numeral(&chars("0000010"), 10), Some(10));
    assert_eq!(parse_numeral(&chars(""), 10), None);
    assert_eq!(parse_numeral(&chars("1a"), 10), None);
    assert_eq!(parse_numeral(&chars("-1"), 10), None);
    assert_eq!(parse_numeral(&chars("18446744073709551615"), u64::MAX), Some(u64::MAX));
    assert_eq!(parse_numeral(&chars("18446744073709551616"), u64::MAX), None);
    assert_eq!(parse_numeral(&chars("99999999999999999999"), u64::MAX), None);
}

#[test]
fn split_lines_cuts_after_every_line_feed() {
    assert_eq!(split_lines(b"a\nbc\n\nd"), vec![b"a\n".to_vec(), b"bc\n".to_vec(), b"\n".to_vec(), b"d".to_vec()]);
    assert_eq!(split_lines(b"a\n"), vec![b"a\n".to_vec()]);
    assert_eq!(split_lines(b""), Vec::<Vec<u8>>::new());
    assert_eq!(split_lines(b"\r\n"), vec![b"\r\n".to_vec()]);
    assert_eq!(copy_bytes(b"abcdef", 2, 4), b"cd".to_vec());
}

#[test]
fn read_lines_stops_at_what_is_not_text() {
    let file = read_lines("a\né\n\nlast".as_bytes());
    assert_eq!(file.lines, vec!["a\n", "é\n", "\n", "last"]);
    assert!(file.complete);
    let file = read_lines(b"a\n\xe9\nb\n");
    assert_eq!(file.lines, vec!["a\n"]);
    assert!(!file.complete);
    let file = read_lines(b"\xed\xa0\x80\n");
    assert!(!file.complete);
    let file = read_lines(b"\xc0\xaf\n");
    assert!(!file.complete);
}

#[test]
fn read_first_lines_does_not_look_beyond_the_limit() {
    let file = read_first_lines(b"a\nb\n\xff\n", 2);
    assert_eq!(file.lines, vec!["a\n", "b\n"]);
    assert!(file.complete);
    let file = read_first_lines(b"a\nb\n\xff\n", 3);
    assert_eq!(file.lines, vec!["a\n", "b\n"]);
    assert!(!file.complete);
    let file = read_first_lines(b"a\nb\n", 0);
    assert!(file.lines.is_empty() && file.complete);
    let file = read_first_lines(b"a\nb\n", u64::MAX);
    assert_eq!(file.lines, vec!["a\n", "b\n"]);
}

#[test]
fn strip_terminator_takes_line_feed_and_carriage_return() {
    assert_eq!(strip_terminator("abc\n"), "abc");
    assert_eq!(strip_terminator("abc\r\n"), "abc");
    assert_eq!(strip_terminator("abc\r"), "abc\r");
    assert_eq!(strip_terminator("abc"), "abc");
    assert_eq!(strip_terminator("abc\n\n"), "abc\n");
    assert_eq!(strip_terminator("abc\r\r\n"), "abc\r");
    assert_eq!(strip_terminator("\n"), "");
    assert_eq!(strip_terminator(""), "");
    assert_eq!(terminator_start(b"abc\r\n"), 3);
    assert_eq!(terminator_start(b"abc\n"), 3);
    assert_eq!(terminator_start(b"abc"), 3);
    assert_eq!(terminator_start(b"\n"), 0);
}

#[test]
fn display_file_header_follows_the_header_policy() {
    assert_eq!(display_file_header("f", false, false, 1, 0), None);
    assert_eq!(display_file_header("f", false, false, 2, 0), Some("==> f <==\n".to_string()));
    assert_eq!(display_file_header("f", false, false, 2, 1), Some("\n==> f <==\n".to_string()));
    assert_eq!(display_file_header("f", true, false, 2, 1), None);
    assert_eq!(display_file_header("f", false, true, 1, 0), Some("==> f <==\n".to_string()));
    assert_eq!(display_file_header("f", true, true, 1, 0), Some("==> f <==\n".to_string()));
    assert_eq!(display_file_header("f", false, false, 0, 0), None);
}

#[test]
fn errors_are_reported_with_the_subcommand_first() {
    assert_eq!(display_error("grep", "x is a directory"), "grep: x is a directory");
    assert_eq!(display_file_error("cut", "f.txt", "No such file"), "cut: f.txt: No such file");
}

#[test]
fn sources_fit_adds_up_what_the_files_hold() {
    let files = vec![
        Source { name: "a".to_string(), content: Some(vec![0; 3]) },
        Source { name: "b".to_string(), content: None },
        Source { name: "c".to_string(), content: Some(vec![0; 4]) },
    ];
    assert!(sources_fit(&files, 7));
    assert!(sources_fit(&files, u64::MAX));
    assert!(!sources_fit(&files, 6));
    assert!(!sources_fit(&files, 0));
    assert!(sources_fit(&Vec::new(), 0));
}
