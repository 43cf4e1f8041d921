use unx::echo::{echo, join};

fn words(list: &[&str]) -> Vec<String> {
    list.iter().map(|s| s.to_string()).collect()
}

#[test]
fn hello1() {
    assert_eq!(echo(&words(&["Hello there"]), false), "Hello there\n");
}

#[test]
fn hello2() {
    assert_eq!(echo(&words(&["Hello", "there"]), false), "Hello there\n");
}

#[test]
fn hello1_no_newline() {
    assert_eq!(echo(&words(&["Hello  there"]), true), "Hello  there");
}

#[test]
fn hello2_no_newline() {
    assert_eq!(echo(&words(&["Hello", "there"]), true), "Hello there");
}

#[test]
fn echo_of_nothing() {
    assert_eq!(echo(&[], false), "\n");
    assert_eq!(echo(&[], true), "");
    assert_eq!(echo(&words(&["", ""]), false), " \n");
}

#[test]
fn join_puts_the_separator_between() {
    assert_eq!(join(&words(&["a", "b", "c"]), ", "), "a, b, c");
    assert_eq!(join(&words(&["a"]), ", "), "a");
    assert_eq!(join(&[], ", "), "");
    assert_eq!(join(&words(&["a", "b"]), ""), "ab");
}
