use unx::head::{handle_file, head};
use unx::lines::Source;

fn source(name: &str, content: &[u8]) -> Source {
    Source { name: name.to_string(), content: Some(content.to_vec()) }
}

#[test]
fn head_writes_the_first_lines() {
    let files = vec![source("a", b"1\n2\n3\n4\n")];
    let out = head(&files, 2, None, false, false);
    assert_eq!(out.len(), 1);
    assert_eq!(out[0].header, None);
    assert_eq!(out[0].body, vec!["1\n", "2\n"]);
    assert!(out[0].complete);
    assert_eq!(head(&files, 10, None, false, false)[0].body, vec!["1\n", "2\n", "3\n", "4\n"]);
    assert_eq!(head(&files, 0, None, false, false)[0].body, Vec::<String>::new());
    let open_end = vec![source("a", b"1\n2")];
    assert_eq!(head(&open_end, 5, None, false, false)[0].body, vec!["1\n", "2"]);
}

#[test]
fn head_writes_the_first_bytes() {
    let files = vec![source("a", "aébc\n".as_bytes())];
    assert_eq!(head(&files, 10, Some(1), false, false)[0].body, vec!["a"]);
    assert_eq!(head(&files, 10, Some(2), false, false)[0].body, vec!["a\u{fffd}"]);
    assert_eq!(head(&files, 10, Some(3), false, false)[0].body, vec!["aé"]);
    assert_eq!(head(&files, 10, Some(100), false, false)[0].body, vec!["aébc\n"]);
    assert_eq!(head(&files, 10, Some(0), false, false)[0].body, vec![""]);
}

#[test]
fn head_writes_headers_between_files() {
    let files = vec![
        source("one.txt", b"1\n"),
        Source { name: "missing.txt".to_string(), content: None },
        source("two.txt", b"2\n"),
    ];
    let out = head(&files, 1, None, false, false);
    assert_eq!(out.len(), 3);
    assert_eq!(out[0].header.as_deref(), Some("==> one.txt <==\n"));
    assert_eq!(out[1].header, None);
    assert!(out[1].body.is_empty());
    assert_eq!(out[2].header.as_deref(), Some("\n==> two.txt <==\n"));
    assert!(head(&files, 1, None, true, false).iter().all(|o| o.header.is_none()));
    let single = vec![source("one.txt", b"1\n")];
    assert_eq!(head(&single, 1, None, false, false)[0].header, None);
    assert_eq!(head(&single, 1, None, false, true)[0].header.as_deref(), Some("==> one.txt <==\n"));
}

#[test]
fn head_ends_at_a_line_that_is_not_text() {
    let files = vec![source("a", b"1\n\xff\n3\n"), source("b", b"x\n")];
    let out = head(&files, 1, None, false, false);
    assert_eq!(out.len(), 2);
    assert!(out[0].complete && out[1].complete);
    let out = head(&files, 3, None, false, false);
    assert_eq!(out.len(), 1);
    assert!(!out[0].complete);
    assert_eq!(out[0].body, vec!["1\n"]);
    let out = head(&files, 3, Some(3), false, false);
    assert_eq!(out.len(), 2);
    assert_eq!(out[0].body, vec!["1\n\u{fffd}"]);
}

#[test]
fn handle_file_writes_header_and_start() {
    let out = handle_file(b"a\nb\n", "f", 3, 2, None, 1, false, false);
    assert_eq!(out.header.as_deref(), Some("\n==> f <==\n"));
    assert_eq!(out.body, vec!["a\n"]);
}
