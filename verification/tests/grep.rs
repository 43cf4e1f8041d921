use unx::grep::{
    build_regex_pattern, find_files, find_lines, grep, log_data, select_lines, GrepError, PathKind,
    SearchPath,
};
use unx::lines::Source;

fn source(name: &str, content: &[u8]) -> Source {
    Source { name: name.to_string(), content: Some(content.to_vec()) }
}

fn fox() -> Source {
    source("fox.txt", b"The quick brown fox\njumps over\nthe lazy dog.\n")
}

#[test]
fn dies_bad_pattern() {
    let err = grep("*foo", &vec![fox()], false, false, false).unwrap_err();
    assert_eq!(err, GrepError::InvalidPattern("*foo".to_string()));
    assert!(err.message().contains(r#"grep: invalid pattern `*foo`"#));
}

#[test]
fn grep_finds_the_lines_that_match() {
    let out = grep("the", &vec![fox()], false, false, false).unwrap();
    assert_eq!(out, vec![Some(vec!["the lazy dog.\n".to_string()])]);
    let out = grep("the", &vec![fox()], true, false, false).unwrap();
    assert_eq!(
        out,
        vec![Some(vec!["The quick brown fox\n".to_string(), "the lazy dog.\n".to_string()])]
    );
    let out = grep("o[vx]", &vec![fox()], false, false, false).unwrap();
    assert_eq!(out, vec![Some(vec!["The quick brown fox\n".to_string(), "jumps over\n".to_string()])]);
    let out = grep("^$", &vec![fox()], false, false, false).unwrap();
    assert_eq!(out, vec![Some(Vec::new())]);
}

#[test]
fn grep_inverts_the_search() {
    let out = grep("the", &vec![fox()], false, false, true).unwrap();
    assert_eq!(out, vec![Some(vec!["The quick brown fox\n".to_string(), "jumps over\n".to_string()])]);
    let out = grep("the", &vec![fox()], true, false, true).unwrap();
    assert_eq!(out, vec![Some(vec!["jumps over\n".to_string()])]);
}

#[test]
fn grep_counts_the_lines() {
    assert_eq!(grep("the", &vec![fox()], true, true, false).unwrap(), vec![Some(vec!["2\n".to_string()])]);
    assert_eq!(grep("the", &vec![fox()], true, true, true).unwrap(), vec![Some(vec!["1\n".to_string()])]);
    assert_eq!(grep("xyz", &vec![fox()], false, true, false).unwrap(), vec![Some(vec!["0\n".to_string()])]);
}

#[test]
fn grep_names_the_file_where_there_are_several() {
    let files = vec![
        fox(),
        Source { name: "missing.txt".to_string(), content: None },
        source("broken.txt", b"the\n\xff\n"),
        source("nobody.txt", b"I'm Nobody! Who are you?\nAre you the one?"),
    ];
    let out = grep("the", &files, false, false, false).unwrap();
    assert_eq!(
        out,
        vec![
            Some(vec!["fox.txt:the lazy dog.\n".to_string()]),
            None,
            None,
            Some(vec!["nobody.txt:Are you the one?".to_string()]),
        ]
    );
    let out = grep("the", &files, false, true, false).unwrap();
    assert_eq!(
        out,
        vec![Some(vec!["fox.txt:1\n".to_string()]), None, None, Some(vec!["nobody.txt:1\n".to_string()])]
    );
}

#[test]
fn build_regex_pattern_keeps_the_pattern() {
    let pattern = build_regex_pattern("a+b", true).unwrap();
    assert_eq!(pattern.as_str(), "a+b");
    assert_eq!(
        pattern.match_all(&vec!["xAABx".to_string(), "ab".to_string(), "ba".to_string()]),
        vec![true, true, false]
    );
    let pattern = build_regex_pattern("a+b", false).unwrap();
    assert_eq!(pattern.match_all(&vec!["xAABx".to_string(), "ab".to_string()]), vec![false, true]);
    assert!(matches!(build_regex_pattern("(", false), Err(GrepError::InvalidPattern(p)) if p == "("));
    assert!(build_regex_pattern("", false).is_ok());
}

#[test]
fn find_lines_has_nothing_for_what_is_not_text() {
    let pattern = build_regex_pattern("a", false).unwrap();
    assert_eq!(find_lines(b"a\nb\nca\n", &pattern, false), Some(vec!["a\n".to_string(), "ca\n".to_string()]));
    assert_eq!(find_lines(b"a\nb\nca\n", &pattern, true), Some(vec!["b\n".to_string()]));
    assert_eq!(find_lines(b"a\n\xff\n", &pattern, false), None);
    assert_eq!(find_lines(b"", &pattern, true), Some(Vec::new()));
}

#[test]
fn select_lines_takes_the_lines_found() {
    let lines: Vec<String> = vec!["a".into(), "b".into(), "c".into()];
    assert_eq!(select_lines(&lines, &vec![true, false, true], false), vec!["a", "c"]);
    assert_eq!(select_lines(&lines, &vec![true, false, true], true), vec!["b"]);
    assert_eq!(select_lines(&Vec::new(), &Vec::new(), true), Vec::<String>::new());
    assert_eq!(select_lines(&lines, &vec![true], false), Vec::<String>::new());
}

#[test]
fn log_data_names_the_file_for_several_files() {
    assert_eq!(log_data(1, "fox.txt", "line\n"), "line\n");
    assert_eq!(log_data(0, "fox.txt", "line\n"), "line\n");
    assert_eq!(log_data(2, "fox.txt", "line\n"), "fox.txt:line\n");
    assert_eq!(log_data(2, "fox.txt", "3\n"), "fox.txt:3\n");
}

#[test]
fn find_files_walks_directories_only_where_asked() {
    let paths = vec![
        SearchPath { path: "-".to_string(), kind: PathKind::Missing("no such file".to_string()) },
        SearchPath { path: "fox.txt".to_string(), kind: PathKind::File },
        SearchPath { path: "gone".to_string(), kind: PathKind::Missing("No such file or directory (os error 2)".to_string()) },
        SearchPath { path: "dir".to_string(), kind: PathKind::Dir(vec!["dir/a".to_string(), "dir/b/c".to_string()]) },
        SearchPath { path: "socket".to_string(), kind: PathKind::Other },
    ];
    let found = find_files(&paths, false);
    assert_eq!(found.files, vec!["-", "fox.txt"]);
    assert_eq!(
        found.errors,
        vec!["grep: gone: No such file or directory (os error 2)", "grep: dir is a directory"]
    );
    let found = find_files(&paths, true);
    assert_eq!(found.files, vec!["-", "fox.txt", "dir/a", "dir/b/c"]);
    assert_eq!(found.errors, vec!["grep: gone: No such file or directory (os error 2)"]);
}
