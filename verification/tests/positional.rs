use import_modules::config::ScanConfig;
use import_modules::error::{ErrorKind, ImportError};
use import_modules::filter::{participates, EntryKind};
use import_modules::invocation::{directory_of, invocation_config, resolve_invocation, tokenize};
use import_modules::output::OutputPolicy;
use import_modules::positional::{
    import_modules, import_pub_modules, import_scope_modules, module_handler, parse_parameters,
};

fn shape(config: &ScanConfig) -> (bool, bool, Option<String>) {
    match &config.output {
        OutputPolicy::RawDeclaration { is_public, is_module, entry_suffix } => {
            (*is_public, *is_module, entry_suffix.clone())
        }
        OutputPolicy::InterProcessTemplate { .. } => panic!("a template"),
    }
}

#[test]
fn parameters_are_split_at_commas() {
    assert_eq!(parse_parameters("\"src\", \"^a$\"").unwrap(), vec!["src", "^a$"]);
    assert_eq!(parse_parameters("\"a\",\"b\",\"c\"").unwrap(), vec!["a", "b", "c"]);
    assert_eq!(parse_parameters("").unwrap(), vec![""]);
    assert_eq!(parse_parameters("  ").unwrap(), vec![""]);
    assert_eq!(parse_parameters(",").unwrap(), vec!["", ""]);
    assert_eq!(parse_parameters("\"a\" \"b\"").unwrap(), vec!["ab"]);
}

#[test]
fn parameters_keep_what_is_inside_a_string() {
    assert_eq!(parse_parameters("\"a, b\"").unwrap(), vec!["a, b"]);
    assert_eq!(parse_parameters(r#""a\"b""#).unwrap(), vec!["a\"b"]);
    assert_eq!(parse_parameters(r#""a\\b""#).unwrap(), vec!["a\\b"]);
    assert_eq!(parse_parameters(r#""a\nb""#).unwrap(), vec!["anb"]);
    assert_eq!(parse_parameters("\"open, still").unwrap(), vec!["open, still"]);
    assert_eq!(
        parse_parameters("\"tests/pub_modules/\", \"^((?!mod\\\\.rs).)*$\"").unwrap(),
        vec!["tests/pub_modules/", "^((?!mod\\.rs).)*$"]
    );
}

#[test]
fn character_outside_a_string_is_a_syntax_error() {
    match parse_parameters("\"a\", b").unwrap_err() {
        ImportError::SyntaxError { cursor, message } => {
            assert_eq!(cursor, 6);
            assert_eq!(message, "Invalid character: b");
        }
        other => panic!("{:?}", other),
    }
    match parse_parameters("x").unwrap_err() {
        ImportError::SyntaxError { cursor, message } => {
            assert_eq!(cursor, 1);
            assert_eq!(message, "Invalid character: x");
        }
        other => panic!("{:?}", other),
    }
    match parse_parameters("\"a\"\\, y").unwrap_err() {
        ImportError::SyntaxError { cursor, message } => {
            assert_eq!(cursor, 4);
            assert_eq!(message, "Invalid character: \\");
        }
        other => panic!("{:?}", other),
    }
}

#[test]
fn positional_invocations_resolve() {
    let config = import_pub_modules("\"src\", \"^a\"", '/').unwrap();
    assert_eq!(shape(&config), (true, true, Some(String::new())));
    assert_eq!(config.root, "src/");
    assert_eq!(config.glue, "\n");
    assert!(!config.recursive);
    assert_eq!(config.post_process, None);
    assert_eq!(config.filters.len(), 3);
    assert_eq!(config.filters[2].pattern.as_text(), "^a");
    assert!(participates(&config.filters, "abc", EntryKind::File).unwrap());
    assert!(!participates(&config.filters, "bcd", EntryKind::File).unwrap());
    assert!(participates(&config.filters, "bcd", EntryKind::Directory).unwrap());

    let config = import_modules("\"src/\", \"x\"", '/').unwrap();
    assert_eq!(shape(&config), (false, true, Some(String::new())));
    assert_eq!(config.root, "src/");

    let config = import_scope_modules("\"src\", \"x\", \"run()\"", '\\').unwrap();
    assert_eq!(shape(&config), (false, false, Some("run()".to_string())));
    assert_eq!(config.root, "src\\");
    assert_eq!(config.separator, '\\');
}

#[test]
fn wrong_number_of_parameters_is_a_syntax_error() {
    let twelve = vec!["\"x\""; 12].join(", ");
    for (attempt, count) in [
        (import_modules("\"src\"", '/'), "1"),
        (import_modules("\"a\", \"b\", \"c\"", '/'), "3"),
        (import_pub_modules("", '/'), "1"),
        (import_scope_modules("\"a\", \"b\"", '/'), "2"),
        (import_scope_modules("\"a\", \"b\", \"c\", \"d\"", '/'), "4"),
        (import_modules(&twelve, '/'), "12"),
    ] {
        match attempt {
            Err(ImportError::SyntaxError { cursor, message }) => {
                assert_eq!(cursor, 0);
                assert_eq!(message, format!("Invalid number of parameters: {}", count));
            }
            _ => panic!("the count was not checked"),
        }
    }
    assert!(matches!(
        import_modules("\"a\", \"b\" c", '/'),
        Err(ImportError::SyntaxError { cursor: 10, .. })
    ));
}

#[test]
fn bad_positional_pattern_is_a_pattern_error() {
    match import_modules("\"src\", \"(\"", '/') {
        Err(fault) => {
            assert_eq!(fault.kind(), ErrorKind::Pattern);
            assert_eq!(fault.message(), "Failed to parse include_files pattern: (.");
        }
        Ok(_) => panic!("a bad pattern compiled"),
    }
}

#[test]
fn module_handler_checks_the_keywords() {
    let made = |p, m| {
        module_handler(p, m, "d".to_string(), "x".to_string(), "e".to_string(), '/')
    };
    assert_eq!(shape(&made(true, true).unwrap()), (true, true, Some("e".to_string())));
    assert_eq!(shape(&made(false, true).unwrap()), (false, true, Some("e".to_string())));
    assert_eq!(shape(&made(false, false).unwrap()), (false, false, Some("e".to_string())));
    match made(true, false) {
        Err(fault) => {
            assert_eq!(fault.kind(), ErrorKind::Config);
            assert_eq!(fault.message(), "You must set the module to true to use public_module.");
        }
        Ok(_) => panic!("pub without mod was accepted"),
    }
    match module_handler(true, false, "d".to_string(), "(".to_string(), String::new(), '/') {
        Err(fault) => assert_eq!(fault.kind(), ErrorKind::Config),
        Ok(_) => panic!("pub without mod was accepted"),
    }
}

#[test]
fn invocations_resolve_by_their_shape() {
    let resolve = |text: &str, index: usize| {
        let tokens = tokenize(text).unwrap();
        invocation_config(index, &tokens, '/')
    };
    let config = resolve("\"src\" where \"^a\" use as pub mod", 0).unwrap();
    assert_eq!(config.root, "src/");
    assert_eq!(config.glue, "");
    assert!(!config.recursive);
    assert_eq!(config.filters.len(), 3);
    assert_eq!(config.filters[2].pattern.as_text(), "^a");
    assert_eq!(shape(&config), (true, true, None));

    let config = resolve("\"src\" where \"^a\" use as mod", 1).unwrap();
    assert_eq!(shape(&config), (false, true, None));

    let config = resolve("\"src\" where \"^a\" use as \"x::{}::run();\"", 2).unwrap();
    assert!(
        matches!(&config.output, OutputPolicy::InterProcessTemplate { template } if template == "x::{}::run();")
    );
    assert_eq!(config.filters.len(), 3);

    let config = resolve("\"src/\" use as pub mod", 3).unwrap();
    assert_eq!(shape(&config), (true, true, None));
    assert_eq!(config.filters.len(), 2);
    assert_eq!(config.root, "src/");

    let config = resolve("\"src\" use as mod", 4).unwrap();
    assert_eq!(shape(&config), (false, true, None));

    let config = resolve("\"src\" use as \"{},\"", 5).unwrap();
    assert!(
        matches!(&config.output, OutputPolicy::InterProcessTemplate { template } if template == "{},")
    );

    match resolve("\"src\" where \"(\" use as mod", 1) {
        Err(fault) => {
            assert_eq!(fault.kind(), ErrorKind::Pattern);
            assert_eq!(fault.message(), "Failed to parse include_files pattern: (.");
        }
        Ok(_) => panic!("a bad pattern compiled"),
    }
}

#[test]
fn invocation_names_its_directory() {
    assert_eq!(directory_of("\"src/math\" use as mod").as_deref(), Some("src/math"));
    assert_eq!(directory_of("  \"a b\"").as_deref(), Some("a b"));
    assert_eq!(directory_of("\"\" use").as_deref(), Some(""));
    assert_eq!(directory_of("src use as mod"), None);
    assert_eq!(directory_of(""), None);
    assert_eq!(directory_of("! \"src\""), None);
}

#[test]
fn invocation_resolves_from_its_text() {
    let config = resolve_invocation("\"src\" where \"^((?!mod.rs).)*$\" use as pub mod", true, '/')
        .unwrap();
    assert_eq!(config.root, "src/");
    assert_eq!(shape(&config), (true, true, None));
    assert_eq!(config.filters[2].pattern.as_text(), "^((?!mod.rs).)*$");
    assert!(participates(&config.filters, "src/add.rs", EntryKind::File).unwrap());
    assert!(!participates(&config.filters, "src/mod.rs", EntryKind::File).unwrap());

    match resolve_invocation("\"src\" use mod", true, '/') {
        Err(ImportError::SyntaxError { cursor, message }) => {
            assert_eq!(cursor, 13);
            assert_eq!(
                message,
                "Invalid syntax: no grammar rule matches\n\"src\" use mod\n            ^"
            );
        }
        _ => panic!("a wrong shape was accepted"),
    }
    match resolve_invocation("\"src\" use as mod", false, '/') {
        Err(ImportError::SemanticError { cursor, message }) => {
            assert_eq!(cursor, 5);
            assert_eq!(message, "src is not a valid directory");
        }
        _ => panic!("a missing directory was accepted"),
    }
    match resolve_invocation("\"src\" where \"[\" use as mod", true, '/') {
        Err(ImportError::SemanticError { cursor, message }) => {
            assert_eq!(cursor, 15);
            assert_eq!(message, "[ is not a valid regular expression");
        }
        _ => panic!("a bad pattern was accepted"),
    }
}
