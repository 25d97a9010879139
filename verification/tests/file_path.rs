use memory_analyser::file_path::same_path;

#[test]
fn repeated_and_trailing_slashes_and_dots_are_ignored() {
    assert!(same_path("/lib/a.so", "/lib//a.so"));
    assert!(same_path("/lib/a.so", "/lib/./a.so"));
    assert!(same_path("/lib/a.so", "/lib/a.so/"));
    assert!(same_path("a/b", "a//b/."));
    assert!(same_path("", ""));
}

#[test]
fn root_parent_and_leading_dot_matter() {
    assert!(!same_path("/lib/a.so", "lib/a.so"));
    assert!(!same_path("/lib/a.so", "/lib/../lib/a.so"));
    assert!(!same_path("./a", "a"));
    assert!(same_path("./a", "./a/."));
    assert!(!same_path("/lib/a.so", "/lib/b.so"));
    assert!(!same_path("/a", "/a/b"));
}
