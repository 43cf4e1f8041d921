use unx::ls::{
    find_files, format_mode, format_output, is_hidden, ls, mk_triple, Child, Listed, Listing,
    LongEntry, Owner,
};

fn long_entry(is_dir: bool, mode: u32, len: u64, path: &str) -> LongEntry {
    LongEntry {
        is_dir,
        mode,
        nlink: 1,
        user: "kay".to_string(),
        group: "staff".to_string(),
        len,
        modified: "Oct 28 26 10:15".to_string(),
        path: path.to_string(),
    }
}

#[test]
fn mk_triple_writes_one_owner() {
    assert_eq!(mk_triple(0o751, Owner::User), "rwx");
    assert_eq!(mk_triple(0o751, Owner::Group), "r-x");
    assert_eq!(mk_triple(0o751, Owner::Other), "--x");
    assert_eq!(mk_triple(0o600, Owner::Other), "---");
    assert_eq!(mk_triple(0o100644, Owner::User), "rw-");
}

#[test]
fn format_mode_writes_all_owners() {
    assert_eq!(format_mode(0o755), "rwxr-xr-x");
    assert_eq!(format_mode(0o421), "r---w---x");
    assert_eq!(format_mode(0o644), "rw-r--r--");
    assert_eq!(format_mode(0o600), "rw-------");
    assert_eq!(format_mode(0), "---------");
    assert_eq!(format_mode(0o100777), "rwxrwxrwx");
}

#[test]
fn masks_are_the_bits_of_a_file_mode() {
    assert_eq!(Owner::User.masks(), [0o400, 0o200, 0o100]);
    assert_eq!(Owner::Group.masks(), [0o040, 0o020, 0o010]);
    assert_eq!(Owner::Other.masks(), [0o004, 0o002, 0o001]);
}

#[test]
fn is_hidden_looks_at_the_first_character() {
    assert!(is_hidden(".hidden"));
    assert!(is_hidden("."));
    assert!(!is_hidden("fox.txt"));
    assert!(!is_hidden(""));
}

#[test]
fn find_files_lists_directories_and_names_files() {
    let paths = vec![
        Listed { name: "fox.txt".to_string(), listing: Listing::File },
        Listed { name: "gone".to_string(), listing: Listing::Missing("No such file or directory (os error 2)".to_string()) },
        Listed {
            name: "dir".to_string(),
            listing: Listing::Dir(vec![
                Child { path: "dir/a".to_string(), file_name: Some("a".to_string()) },
                Child { path: "dir/.b".to_string(), file_name: Some(".b".to_string()) },
                Child { path: "dir/..".to_string(), file_name: None },
            ]),
        },
    ];
    let found = find_files(&paths, false);
    assert_eq!(found.paths, vec!["fox.txt", "dir/a", "dir/.."]);
    assert_eq!(found.errors, vec!["gone: No such file or directory (os error 2)"]);
    let found = find_files(&paths, true);
    assert_eq!(found.paths, vec!["fox.txt", "dir/a", "dir/.b", "dir/.."]);
}

#[test]
fn format_output_lines_the_columns_up() {
    let entries = vec![
        long_entry(false, 0o644, 193, "bustle.txt"),
        long_entry(true, 0o755, 4096, "dir"),
        long_entry(false, 0o600, 45, "fox.txt"),
    ];
    let text = format_output(&entries).unwrap();
    assert_eq!(
        text,
        "-rw-r--r--  1  kay  staff   193  Oct 28 26 10:15  bustle.txt\n\
         drwxr-xr-x  1  kay  staff  4096  Oct 28 26 10:15  dir\n\
         -rw-------  1  kay  staff    45  Oct 28 26 10:15  fox.txt\n"
    );
    assert_eq!(format_output(&Vec::new()).unwrap(), "");
}

#[test]
fn long_listing_has_permissions_size_and_name() {
    let text = ls(&vec![long_entry(false, 0o600, 45, "fox.txt")], true).unwrap();
    let parts: Vec<&str> = text.split_whitespace().collect();
    assert_eq!(parts.first().unwrap(), &"-rw-------");
    assert_eq!(parts.get(4).unwrap(), &"45");
    assert_eq!(parts.last().unwrap(), &"fox.txt");
    assert!(text.ends_with("fox.txt\n\n"));
}

#[test]
fn short_listing_writes_each_path_on_a_line() {
    let entries = vec![long_entry(false, 0o644, 1, "a"), long_entry(true, 0o755, 2, "b")];
    assert_eq!(ls(&entries, false).unwrap(), "a\nb\n");
    assert_eq!(ls(&Vec::new(), false).unwrap(), "");
}
