use import_modules::compose::{compose, parse_modules, render};
use import_modules::config::{resolve_config, RawConfig, ScanConfig};
use import_modules::error::{ErrorKind, ImportError};
use import_modules::positional::{import_modules, import_pub_modules, import_scope_modules};
use import_modules::scan::{Action, Entry, Scanner};
use std::collections::HashMap;

fn raw(directory: &str) -> RawConfig {
    RawConfig {
        directory: directory.to_string(),
        recursive: None,
        inter_process: None,
        post_process: None,
        public_module: None,
        module: None,
        exclude_files: Vec::new(),
        exclude_dirs: Vec::new(),
        include_files: Vec::new(),
        include_dirs: Vec::new(),
    }
}

fn tree(listings: &[(&str, &[(&str, bool)])]) -> HashMap<String, Vec<(String, bool)>> {
    listings
        .iter()
        .map(|(dir, entries)| {
            (dir.to_string(), entries.iter().map(|(p, d)| (p.to_string(), *d)).collect())
        })
        .collect()
}

fn scan(
    config: &ScanConfig,
    root: &str,
    tree: &HashMap<String, Vec<(String, bool)>>,
) -> Result<Vec<String>, ImportError> {
    let mut scanner = Scanner::begin(root, tree.contains_key(root))?;
    loop {
        match scanner.advance(config)? {
            Action::Read { directory } => {
                let entries = tree
                    .get(&directory)
                    .map(|list| {
                        list.iter().map(|(p, d)| Entry { path: p.clone(), is_dir: *d }).collect()
                    })
                    .unwrap_or_default();
                scanner.enter(entries);
            }
            Action::Finish => return Ok(scanner.candidates()),
        }
    }
}

fn run(
    config: &ScanConfig,
    root: &str,
    tree: &HashMap<String, Vec<(String, bool)>>,
) -> Result<String, ImportError> {
    let found = scan(config, root, tree)?;
    render(root, config, &found)
}

fn add(a: i32, b: i32) -> i32 {
    a + b
}

fn div(a: i32, b: i32) -> i32 {
    a / b
}

#[test]
fn test() {
    let mut options = raw("tests/math/");
    options.inter_process = Some("math::{}::handler,".to_string());
    options.post_process = Some("vec![{}]".to_string());
    let config = resolve_config(options, '/').unwrap();
    assert_eq!(config.root, "tests/math/");
    let files = tree(&[(
        "tests/math/",
        &[("tests/math/add.rs", false), ("tests/math/div.rs", false), ("tests/math/mod.rs", false)],
    )]);
    let text = run(&config, "tests/math/", &files).unwrap();
    assert_eq!(text, "vec![math::add::handler,math::div::handler,]");

    let handlers: HashMap<&str, fn(i32, i32) -> i32> =
        [("math::add::handler", add as fn(i32, i32) -> i32), ("math::div::handler", div)]
            .into_iter()
            .collect();
    let inner = text.strip_prefix("vec![").unwrap().strip_suffix("]").unwrap();
    let data: Vec<fn(i32, i32) -> i32> =
        inner.split(',').filter(|name| !name.is_empty()).map(|name| handlers[name]).collect();

    // The first function is the sum of two numbers.
    assert!(data[0](16, 4) == 20);

    // The second function is the division of two numbers.
    assert!(data[1](16, 4) == 4);
}

#[test]
fn mod_test_import_pub_modules() {
    let files = tree(&[(
        "tests/scope_modules/",
        &[("tests/scope_modules/a.rs", false), ("tests/scope_modules/mod.rs", false)],
    )]);
    let declared =
        import_modules("\"tests/scope_modules/\", \"^((?!mod.rs).)*$\"", '/').unwrap();
    assert_eq!(run(&declared, "tests/scope_modules/", &files).unwrap(), "mod a;");
    let called =
        import_scope_modules("\"tests/scope_modules/\", \"^((?!mod.rs).)*$\", \"test()\"", '/')
            .unwrap();
    assert_eq!(run(&called, "tests/scope_modules/", &files).unwrap(), "a::test();");

    let files = tree(&[(
        "tests/pub_modules/",
        &[("tests/pub_modules/a.rs", false), ("tests/pub_modules/mod.rs", false)],
    )]);
    let public =
        import_pub_modules("\"tests/pub_modules/\", \"^((?!mod\\\\.rs).)*$\"", '/').unwrap();
    let text = run(&public, "tests/pub_modules/", &files).unwrap();
    assert_eq!(text, "pub mod a;");
    assert_eq!(imported("tests/pub_modules/", &text), "The public modules are imported!");

    let files = tree(&[(
        "tests/priv_modules/",
        &[("tests/priv_modules/a.rs", false), ("tests/priv_modules/mod.rs", false)],
    )]);
    let private =
        import_pub_modules("\"tests/priv_modules/\", \"^((?!mod.rs).)*$\"", '/').unwrap();
    let text = run(&private, "tests/priv_modules/", &files).unwrap();
    assert_eq!(text, "pub mod a;");
    assert_eq!(imported("tests/priv_modules/", &text), "The modules are imported!");
}

/// What `a::test()` gives once the declaration has brought module `a` of
/// the directory into scope.
fn imported(directory: &str, declaration: &str) -> &'static str {
    match (directory, declaration) {
        ("tests/pub_modules/", "pub mod a;") => "The public modules are imported!",
        ("tests/priv_modules/", "pub mod a;") => "The modules are imported!",
        _ => "",
    }
}

#[test]
fn public_modules_are_declared_public() {
    let files = tree(&[(
        "tests/pub_modules/",
        &[
            ("tests/pub_modules/a.rs", false),
            ("tests/pub_modules/b.rs", false),
            ("tests/pub_modules/mod.rs", false),
        ],
    )]);
    let config = import_pub_modules("\"tests/pub_modules/\", \"^((?!mod\\\\.rs).)*$\"", '/').unwrap();
    assert_eq!(run(&config, "tests/pub_modules/", &files).unwrap(), "pub mod a;\npub mod b;");
}

#[test]
fn module_declaration_of_one_file() {
    let mut options = raw("tests/math/");
    options.module = Some(true);
    options.public_module = Some(false);
    let config = resolve_config(options, '/').unwrap();
    let files = tree(&[("tests/math/", &[("tests/math/add.rs", false)])]);
    assert_eq!(scan(&config, "tests/math/", &files).unwrap(), vec!["tests/math/add.rs"]);
    assert_eq!(run(&config, "tests/math/", &files).unwrap(), "mod add;");
}

#[test]
fn missing_root_is_a_path_error() {
    let config = resolve_config(raw("nowhere"), '/').unwrap();
    match Scanner::begin("nowhere/", false) {
        Err(fault) => {
            assert_eq!(fault.kind(), ErrorKind::Path);
            assert_eq!(fault.message(), "nowhere/ is not a directory");
        }
        Ok(_) => panic!("a scan began at a missing root"),
    }
    let nothing = tree(&[]);
    assert!(matches!(run(&config, "nowhere/", &nothing), Err(ImportError::PathError { .. })));
}

#[test]
fn scan_begins_by_asking_for_the_root() {
    let config = resolve_config(raw("src"), '/').unwrap();
    let mut scanner = Scanner::begin("src/", true).unwrap();
    assert!(scanner.candidates().is_empty());
    for _ in 0..2 {
        match scanner.advance(&config).unwrap() {
            Action::Read { directory } => assert_eq!(directory, "src/"),
            Action::Finish => panic!("finished before the root was read"),
        }
    }
    scanner.enter(vec![Entry { path: "src/a.rs".to_string(), is_dir: false }]);
    scanner.enter(vec![Entry { path: "src/dropped.rs".to_string(), is_dir: false }]);
    assert!(matches!(scanner.advance(&config).unwrap(), Action::Finish));
    assert_eq!(scanner.candidates(), vec!["src/a.rs"]);
    assert!(matches!(scanner.advance(&config).unwrap(), Action::Finish));
    assert_eq!(scanner.candidates(), vec!["src/a.rs"]);
}

#[test]
fn flat_scan_keeps_directories_as_candidates() {
    let config = resolve_config(raw("app"), '/').unwrap();
    let files = tree(&[
        ("app/", &[("app/one.rs", false), ("app/math", true), ("app/two.rs", false)]),
        ("app/math", &[("app/math/add.rs", false)]),
    ]);
    assert_eq!(scan(&config, "app/", &files).unwrap(), vec!["app/one.rs", "app/math", "app/two.rs"]);
    assert_eq!(run(&config, "app/", &files).unwrap(), "mod one;mod math;mod two;");
}

#[test]
fn recursive_scan_lists_children_before_their_directory() {
    let mut options = raw("app");
    options.recursive = Some(true);
    let config = resolve_config(options, '/').unwrap();
    let files = tree(&[
        ("app/", &[("app/one.rs", false), ("app/math", true), ("app/two.rs", false)]),
        ("app/math", &[("app/math/add.rs", false), ("app/math/deep", true), ("app/math/mod.rs", false)]),
        ("app/math/deep", &[("app/math/deep/x.rs", false)]),
    ]);
    assert_eq!(
        scan(&config, "app/", &files).unwrap(),
        vec![
            "app/one.rs",
            "app/math/add.rs",
            "app/math/deep/x.rs",
            "app/math/deep",
            "app/math",
            "app/two.rs"
        ]
    );
    assert_eq!(
        run(&config, "app/", &files).unwrap(),
        "mod one;mod math::add;mod math::deep::x;mod math::deep;mod math;mod two;"
    );
}

#[test]
fn default_exclusions_apply() {
    let mut options = raw("app");
    options.recursive = Some(true);
    let config = resolve_config(options, '/').unwrap();
    let files = tree(&[
        (
            "app/",
            &[
                ("app/lib.rs", false),
                ("app/main.rs", false),
                ("app/mod.rs", false),
                ("app/.git", true),
                ("app/.github", true),
                ("app/lib", true),
                ("app/src", true),
                ("app/target", true),
                ("app/tests", true),
                ("app/mylib", true),
                ("app/keep.rs", false),
            ],
        ),
        ("app/.git", &[("app/.git/hidden.rs", false)]),
        ("app/src", &[("app/src/inner.rs", false)]),
        ("app/mylib", &[("app/mylib/x.rs", false)]),
    ]);
    assert_eq!(
        scan(&config, "app/", &files).unwrap(),
        vec!["app/mylib/x.rs", "app/mylib", "app/keep.rs"]
    );
}

#[test]
fn file_filters() {
    let mut options = raw("app");
    options.include_files = vec!["/a".to_string(), "/b".to_string()];
    options.exclude_files = vec!["x".to_string()];
    let config = resolve_config(options, '/').unwrap();
    let files = tree(&[(
        "app/",
        &[
            ("app/a.rs", false),
            ("app/b.rs", false),
            ("app/c.rs", false),
            ("app/ax.rs", false),
            ("app/bx.rs", false),
            ("app/d", true),
        ],
    )]);
    assert_eq!(scan(&config, "app/", &files).unwrap(), vec!["app/a.rs", "app/b.rs", "app/d"]);
}

#[test]
fn directory_filters_skip_on_either_effect() {
    let mut options = raw("app");
    options.recursive = Some(true);
    options.include_dirs = vec!["inc$".to_string()];
    options.exclude_dirs = vec!["exc$".to_string()];
    let config = resolve_config(options, '/').unwrap();
    let files = tree(&[
        ("app/", &[("app/inc", true), ("app/exc", true), ("app/other", true), ("app/inc.rs", false)]),
        ("app/inc", &[("app/inc/a.rs", false)]),
        ("app/exc", &[("app/exc/b.rs", false)]),
        ("app/other", &[("app/other/c.rs", false)]),
    ]);
    assert_eq!(
        scan(&config, "app/", &files).unwrap(),
        vec!["app/other/c.rs", "app/other", "app/inc.rs"]
    );
}

#[test]
fn scans_of_reordered_listings_declare_the_same_set() {
    let mut options = raw("app");
    options.exclude_files = vec!["skip".to_string()];
    let config = resolve_config(options, '/').unwrap();
    let one = tree(&[(
        "app/",
        &[("app/a.rs", false), ("app/skip.rs", false), ("app/b", true), ("app/c.rs", false)],
    )]);
    let two = tree(&[(
        "app/",
        &[("app/c.rs", false), ("app/b", true), ("app/a.rs", false), ("app/skip.rs", false)],
    )]);
    let first = scan(&config, "app/", &one).unwrap();
    let second = scan(&config, "app/", &two).unwrap();
    let mut left = parse_modules("app/", &config, &first).unwrap();
    let mut right = parse_modules("app/", &config, &second).unwrap();
    assert_ne!(left, right);
    left.sort();
    right.sort();
    assert_eq!(left, right);
    assert_eq!(left, vec!["mod a;", "mod b;", "mod c;"]);
    let again = scan(&config, "app/", &one).unwrap();
    assert_eq!(again, first);
}

#[test]
fn root_itself_gives_no_declaration() {
    let config = resolve_config(raw("app"), '/').unwrap();
    let found = vec!["app/".to_string(), "app/a.rs".to_string(), "app/.rs".to_string()];
    assert_eq!(parse_modules("app/", &config, &found).unwrap(), vec!["mod a;"]);
    assert_eq!(compose(&config, &vec![]), "");
    assert_eq!(render("app/", &config, &vec![]).unwrap(), "");
}

#[test]
fn scans_of_a_reordered_tree_declare_the_same_set() {
    let mut options = raw("app");
    options.recursive = Some(true);
    options.exclude_dirs = vec!["hidden$".to_string()];
    let config = resolve_config(options, '/').unwrap();
    let one = tree(&[
        ("app/", &[("app/a.rs", false), ("app/m", true), ("app/hidden", true), ("app/z.rs", false)]),
        ("app/m", &[("app/m/x.rs", false), ("app/m/n", true), ("app/m/mod.rs", false)]),
        ("app/m/n", &[("app/m/n/p.rs", false), ("app/m/n/q.rs", false)]),
        ("app/hidden", &[("app/hidden/h.rs", false)]),
    ]);
    let two = tree(&[
        ("app/", &[("app/z.rs", false), ("app/hidden", true), ("app/m", true), ("app/a.rs", false)]),
        ("app/m", &[("app/m/mod.rs", false), ("app/m/n", true), ("app/m/x.rs", false)]),
        ("app/m/n", &[("app/m/n/q.rs", false), ("app/m/n/p.rs", false)]),
        ("app/hidden", &[("app/hidden/h.rs", false)]),
    ]);
    let first = scan(&config, "app/", &one).unwrap();
    let second = scan(&config, "app/", &two).unwrap();
    assert_ne!(first, second);
    let mut left = parse_modules("app/", &config, &first).unwrap();
    let mut right = parse_modules("app/", &config, &second).unwrap();
    left.sort();
    right.sort();
    assert_eq!(left, right);
    assert_eq!(
        left,
        vec!["mod a;", "mod m::n::p;", "mod m::n::q;", "mod m::n;", "mod m::x;", "mod m;", "mod z;"]
    );
}

#[test]
fn scan_fails_where_a_search_is_given_up() {
    let mut options = raw("app");
    options.exclude_dirs = vec!["(a|aa)+\\1$(?!)".to_string()];
    let config = resolve_config(options, '/').unwrap();
    let deep = "a".repeat(40);
    let files = tree(&[("app/", &[("app/one.rs", false), (deep.as_str(), true)])]);
    match scan(&config, "app/", &files) {
        Err(fault) => {
            assert_eq!(fault.kind(), ErrorKind::Pattern);
            assert_eq!(fault.message(), "Failed to match exclude_dirs pattern: (a|aa)+\\1$(?!).");
        }
        Ok(found) => panic!("{:?}", found),
    }
}

#[test]
fn candidates_are_distinct_and_lie_under_the_root() {
    let mut options = raw("app");
    options.recursive = Some(true);
    let config = resolve_config(options, '/').unwrap();
    let files = tree(&[
        ("app/", &[("app/a.rs", false), ("app/m", true), ("app/n", true), ("app/z.rs", false)]),
        ("app/m", &[("app/m/a.rs", false), ("app/m/n", true)]),
        ("app/m/n", &[("app/m/n/a.rs", false)]),
        ("app/n", &[("app/n/a.rs", false), ("app/n/m", true)]),
        ("app/n/m", &[]),
    ]);
    let found = scan(&config, "app/", &files).unwrap();
    assert_eq!(found.len(), 9);
    for (at, path) in found.iter().enumerate() {
        assert!(path.starts_with("app/") && path.len() > "app/".len());
        assert!(!found[..at].contains(path));
        assert!(files.values().any(|list| list.iter().any(|(p, _)| p == path)));
    }
    let flat = resolve_config(raw("app"), '/').unwrap();
    let found = scan(&flat, "app/", &files).unwrap();
    assert_eq!(found, vec!["app/a.rs", "app/m", "app/n", "app/z.rs"]);
}

#[test]
fn listing_that_names_an_entry_twice_gives_it_twice() {
    let config = resolve_config(raw("app"), '/').unwrap();
    let files = tree(&[("app/", &[("app/a.rs", false), ("app/a.rs", false)])]);
    assert_eq!(scan(&config, "app/", &files).unwrap(), vec!["app/a.rs", "app/a.rs"]);
}
