use unx::find::{find, handle_walk, name_filter, type_filter, Entry, EntryType};
use unx::grep::{build_regex_pattern, Pattern};

fn entry(path: &str, kind: Option<EntryType>) -> Entry {
    let file_name = path.rsplit('/').next().unwrap().to_string();
    Entry { path: path.to_string(), file_name, kind }
}

fn walk() -> Vec<Entry> {
    vec![
        entry("inputs", Some(EntryType::Dir)),
        entry("inputs/g.csv", Some(EntryType::File)),
        entry("inputs/a", Some(EntryType::Dir)),
        entry("inputs/a/a.txt", Some(EntryType::File)),
        entry("inputs/a/b", Some(EntryType::Dir)),
        entry("inputs/a/b/b.csv", Some(EntryType::File)),
        entry("inputs/d/b.csv", Some(EntryType::Link)),
        entry("inputs/pipe", None),
    ]
}

fn patterns(list: &[&str]) -> Vec<Pattern> {
    list.iter().map(|p| build_regex_pattern(p, false).unwrap()).collect()
}

#[test]
fn find_writes_every_entry_where_nothing_is_asked_for() {
    let text = handle_walk(&walk(), &Vec::new(), &Vec::new());
    assert_eq!(
        text,
        "inputs\ninputs/g.csv\ninputs/a\ninputs/a/a.txt\ninputs/a/b\ninputs/a/b/b.csv\ninputs/d/b.csv\ninputs/pipe\n"
    );
    assert_eq!(handle_walk(&Vec::new(), &Vec::new(), &Vec::new()), "\n");
}

#[test]
fn find_chooses_by_kind() {
    assert_eq!(
        handle_walk(&walk(), &Vec::new(), &vec![EntryType::File]),
        "inputs/g.csv\ninputs/a/a.txt\ninputs/a/b/b.csv\n"
    );
    assert_eq!(handle_walk(&walk(), &Vec::new(), &vec![EntryType::Link]), "inputs/d/b.csv\n");
    assert_eq!(
        handle_walk(&walk(), &Vec::new(), &vec![EntryType::Link, EntryType::Dir]),
        "inputs\ninputs/a\ninputs/a/b\ninputs/d/b.csv\n"
    );
}

#[test]
fn find_chooses_by_name() {
    assert_eq!(
        handle_walk(&walk(), &patterns(&[".*[.]csv"]), &Vec::new()),
        "inputs/g.csv\ninputs/a/b/b.csv\ninputs/d/b.csv\n"
    );
    assert_eq!(
        handle_walk(&walk(), &patterns(&["^a", "^g"]), &Vec::new()),
        "inputs/g.csv\ninputs/a\ninputs/a/a.txt\n"
    );
    assert_eq!(handle_walk(&walk(), &patterns(&["A"]), &Vec::new()), "\n");
}

#[test]
fn find_chooses_by_kind_and_name() {
    assert_eq!(
        handle_walk(&walk(), &patterns(&["[.]csv$", "^a$"]), &vec![EntryType::File, EntryType::Dir]),
        "inputs/g.csv\ninputs/a\ninputs/a/b/b.csv\n"
    );
}

#[test]
fn find_works_on_each_walk() {
    let walks = vec![walk(), Vec::new(), vec![entry("x/y.csv", Some(EntryType::File))]];
    assert_eq!(
        find(&walks, &patterns(&["csv"]), &vec![EntryType::File]),
        vec!["inputs/g.csv\ninputs/a/b/b.csv\n", "\n", "x/y.csv\n"]
    );
}

#[test]
fn type_filter_accepts_the_kinds_asked_for() {
    assert!(type_filter(None, &Vec::new()));
    assert!(type_filter(Some(EntryType::File), &Vec::new()));
    assert!(type_filter(Some(EntryType::File), &vec![EntryType::Dir, EntryType::File]));
    assert!(!type_filter(Some(EntryType::Link), &vec![EntryType::Dir, EntryType::File]));
    assert!(!type_filter(None, &vec![EntryType::Dir, EntryType::File, EntryType::Link]));
}

#[test]
fn name_filter_accepts_what_one_pattern_matches() {
    let entries = vec![entry("d/abc", None), entry("d/xyz", None)];
    assert_eq!(name_filter(&entries, &Vec::new()), vec![true, true]);
    assert_eq!(name_filter(&entries, &patterns(&["b"])), vec![true, false]);
    assert_eq!(name_filter(&entries, &patterns(&["q", "y"])), vec![false, true]);
    assert_eq!(name_filter(&entries, &patterns(&["d"])), vec![false, false]);
}
