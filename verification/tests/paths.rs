use import_modules::resolve::{resolve, ModulePath};

fn segments(name: &Option<ModulePath>) -> Option<(Vec<&str>, bool)> {
    name.as_ref().map(|n| (n.segments.iter().map(|s| s.as_str()).collect(), n.source_file))
}

fn rebuilt(root: &str, name: &ModulePath, separator: char) -> String {
    let suffix = if name.source_file { ".rs" } else { "" };
    format!("{}{}{}", root, name.segments.join(&separator.to_string()), suffix)
}

#[test]
fn resolve_takes_root_and_suffix_away() {
    let name = resolve("tests/math/", "tests/math/add.rs", '/');
    assert_eq!(segments(&name), Some((vec!["add"], true)));
    let name = resolve("tests/", "tests/math/add.rs", '/');
    assert_eq!(segments(&name), Some((vec!["math", "add"], true)));
    let name = resolve("tests/", "tests/math", '/');
    assert_eq!(segments(&name), Some((vec!["math"], false)));
}

#[test]
fn resolve_of_the_root_gives_nothing() {
    assert!(resolve("tests/math/", "tests/math/", '/').is_none());
    assert!(resolve("tests/math/", "tests/math/.rs", '/').is_none());
    assert!(resolve("", "", '/').is_none());
    assert!(resolve("a/", "a///", '/').is_none());
}

#[test]
fn resolve_takes_the_root_from_the_front_only() {
    let name = resolve("a/", "a/b/a/c.rs", '/');
    assert_eq!(segments(&name), Some((vec!["b", "a", "c"], true)));
    let name = resolve("x/", "a/x/c.rs", '/');
    assert_eq!(segments(&name), Some((vec!["a", "x", "c"], true)));
}

#[test]
fn resolve_takes_the_suffix_from_the_end_only() {
    let name = resolve("a/", "a/b.rs/c.rs", '/');
    assert_eq!(segments(&name), Some((vec!["b.rs", "c"], true)));
    let name = resolve("a/", "a/b.rsx", '/');
    assert_eq!(segments(&name), Some((vec!["b.rsx"], false)));
    let name = resolve("a/", "a/rs", '/');
    assert_eq!(segments(&name), Some((vec!["rs"], false)));
}

#[test]
fn resolve_drops_empty_segments() {
    let name = resolve("a/", "a//b///c.rs", '/');
    assert_eq!(segments(&name), Some((vec!["b", "c"], true)));
    let name = resolve("a", "a/b/", '/');
    assert_eq!(segments(&name), Some((vec!["b"], false)));
}

#[test]
fn resolve_with_another_separator() {
    let name = resolve("C:\\app\\", "C:\\app\\math\\add.rs", '\\');
    assert_eq!(segments(&name), Some((vec!["math", "add"], true)));
    let name = resolve("C:\\app\\", "C:\\app\\math/add.rs", '\\');
    assert_eq!(segments(&name), Some((vec!["math/add"], true)));
}

#[test]
fn round_trip_gives_the_path_back() {
    let cases = [
        ("tests/math/", "tests/math/add.rs", '/'),
        ("tests/", "tests/math/deep/x.rs", '/'),
        ("tests/", "tests/math", '/'),
        ("", "a/b/c.rs", '/'),
        ("C:\\app\\", "C:\\app\\math\\add.rs", '\\'),
        ("r/", "r/ünï/cödé.rs", '/'),
    ];
    for (root, path, separator) in cases {
        let name = resolve(root, path, separator).unwrap();
        assert!(name.segments.iter().all(|s| !s.is_empty() && !s.contains(separator)));
        assert_eq!(rebuilt(root, &name, separator), path);
    }
}
