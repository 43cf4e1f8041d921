use unx::lines::Source;
use unx::wc::{adjust_flags, count, display_totals, format_field, format_filename, wc, FileData};

fn source(name: &str, content: &[u8]) -> Source {
    Source { name: name.to_string(), content: Some(content.to_vec()) }
}

#[test]
fn count_counts_lines_words_bytes_and_chars() {
    let text = "I don't want the world.\nI just want your half.\n";
    assert_eq!(
        count(text.as_bytes()),
        Some(FileData { num_lines: 2, num_words: 10, num_bytes: 47, num_chars: 47 })
    );
    assert_eq!(
        count(b""),
        Some(FileData { num_lines: 0, num_words: 0, num_bytes: 0, num_chars: 0 })
    );
    assert_eq!(
        count(b"\n"),
        Some(FileData { num_lines: 1, num_words: 0, num_bytes: 1, num_chars: 1 })
    );
    assert_eq!(
        count(b"no line feed"),
        Some(FileData { num_lines: 1, num_words: 3, num_bytes: 12, num_chars: 12 })
    );
}

#[test]
fn count_tells_characters_from_bytes() {
    assert_eq!(
        count("héllo wörld\n€\n".as_bytes()),
        Some(FileData { num_lines: 2, num_words: 3, num_bytes: 18, num_chars: 14 })
    );
}

#[test]
fn count_parts_words_at_ascii_white_space_only() {
    assert_eq!(count(b"  a \t b\r\nc\x0cd  \n").unwrap().num_words, 4);
    assert_eq!(count(b"a\x0bb c\n").unwrap().num_words, 2);
    assert_eq!(count("a\u{a0}b\u{2003}c\n".as_bytes()).unwrap().num_words, 1);
    assert_eq!(count(b" \t \n \n").unwrap().num_words, 0);
}

#[test]
fn count_has_nothing_for_what_is_not_text() {
    assert_eq!(count(b"fine\n\xff\xfe\n"), None);
    assert_eq!(count(b"\xc3"), None);
}

#[test]
fn format_field_pads_to_eight() {
    assert_eq!(format_field(1, false), "");
    assert_eq!(format_field(3, true), "       3");
    assert_eq!(format_field(10, true), "      10");
    assert_eq!(format_field(0, true), "       0");
    assert_eq!(format_field(12345678, true), "12345678");
    assert_eq!(format_field(123456789, true), "123456789");
}

#[test]
fn format_filename_leaves_out_the_standard_input() {
    assert_eq!(format_filename("-"), "");
    assert_eq!(format_filename("fox.txt"), " fox.txt");
    assert_eq!(format_filename("--"), " --");
    assert_eq!(format_filename(""), " ");
}

#[test]
fn adjust_flags_asks_for_lines_words_and_bytes_by_default() {
    let (mut lines, mut words, mut bytes) = (false, false, false);
    adjust_flags(&mut lines, &mut words, &mut bytes, false);
    assert_eq!((lines, words, bytes), (true, true, true));
    let (mut lines, mut words, mut bytes) = (false, false, false);
    adjust_flags(&mut lines, &mut words, &mut bytes, true);
    assert_eq!((lines, words, bytes), (false, false, false));
    let (mut lines, mut words, mut bytes) = (false, true, false);
    adjust_flags(&mut lines, &mut words, &mut bytes, false);
    assert_eq!((lines, words, bytes), (false, true, false));
}

#[test]
fn display_totals_writes_the_asked_counts() {
    assert_eq!(display_totals(true, true, true, false, 1, 2, 3, 4), "       1       2       3 total");
    assert_eq!(display_totals(false, false, false, true, 1, 2, 3, 4), "       4 total");
    assert_eq!(display_totals(false, false, false, false, 1, 2, 3, 4), " total");
}

#[test]
fn wc_of_one_file() {
    let files = vec![source("fox.txt", b"The quick brown fox jumps over the lazy dog.\n")];
    assert_eq!(wc(&files, false, false, false, false), vec!["       1       9      45 fox.txt"]);
    assert_eq!(wc(&files, true, false, false, false), vec!["       1 fox.txt"]);
    assert_eq!(wc(&files, false, true, false, true), vec!["       9      45 fox.txt"]);
    assert_eq!(wc(&files, true, true, true, true), vec!["       1       9      45      45 fox.txt"]);
    let stdin = vec![source("-", b"a b\n")];
    assert_eq!(wc(&stdin, false, false, false, false), vec!["       1       2       4"]);
}

#[test]
fn wc_of_several_files_adds_the_totals() {
    let files = vec![
        source("a.txt", b"one two\n"),
        Source { name: "missing.txt".to_string(), content: None },
        source("broken.txt", b"\xff\n"),
        source("b.txt", "drei\nvier fünf\n".as_bytes()),
    ];
    assert_eq!(
        wc(&files, true, true, true, false),
        vec![
            "       1       2       8 a.txt",
            "       2       3      16 b.txt",
            "       3       5      24 total",
        ]
    );
    assert_eq!(
        wc(&files, false, false, false, true),
        vec!["       8 a.txt", "      15 b.txt", "      23 total"]
    );
    let none: Vec<Source> = Vec::new();
    assert_eq!(wc(&none, false, false, false, false), Vec::<String>::new());
    let missing = vec![
        Source { name: "x".to_string(), content: None },
        Source { name: "y".to_string(), content: None },
    ];
    assert_eq!(wc(&missing, false, false, false, false), vec!["       0       0       0 total"]);
}
