use import_modules::error::{ErrorKind, ImportError};
use import_modules::invocation::tokenize;
use import_modules::models::ast::AST;
use import_modules::models::token::{Token, TokenInfo};
use import_modules::modules::syntactic::{
    caret, categorize, category, content_of, fase_two, is_valid_directory, is_valid_regex,
    match_rule, mismatch_at, parser, regex_verdict, rule, semantic_check, syntax_fault, Scope,
};

fn parse(text: &str, directory_exists: bool) -> Result<usize, ImportError> {
    let tokens = tokenize(text).unwrap();
    let mut scope = Scope::new(text, tokens);
    parser(&mut scope, directory_exists)
}

fn table() -> Vec<Vec<AST>> {
    vec![
        vec![AST::Str, AST::Where, AST::Str, AST::Use, AST::As, AST::Pub, AST::Mod],
        vec![AST::Str, AST::Where, AST::Str, AST::Use, AST::As, AST::Mod],
        vec![AST::Str, AST::Where, AST::Str, AST::Use, AST::As, AST::Str],
        vec![AST::Str, AST::Use, AST::As, AST::Pub, AST::Mod],
        vec![AST::Str, AST::Use, AST::As, AST::Mod],
        vec![AST::Str, AST::Use, AST::As, AST::Str],
    ]
}

#[test]
fn the_table_has_six_rows() {
    let rows = table();
    for index in 0..6 {
        assert_eq!(rule(index), rows[index]);
    }
}

#[test]
fn each_row_matches_itself_only() {
    let rows = table();
    for index in 0..6 {
        assert_eq!(match_rule(&rows[index]), Some(index));
    }
}

#[test]
fn other_sequences_match_no_row() {
    assert_eq!(match_rule(&vec![]), None);
    assert_eq!(match_rule(&vec![AST::Str]), None);
    assert_eq!(match_rule(&vec![AST::Str, AST::Use, AST::As]), None);
    assert_eq!(match_rule(&vec![AST::Str, AST::Use, AST::As, AST::Mod, AST::Mod]), None);
    assert_eq!(match_rule(&vec![AST::Str, AST::Use, AST::As, AST::Pub]), None);
    assert_eq!(match_rule(&vec![AST::Str, AST::Use, AST::As, AST::NoMatch]), None);
    assert_eq!(match_rule(&vec![AST::Mod, AST::Use, AST::As, AST::Str]), None);
    assert_eq!(
        match_rule(&vec![AST::Str, AST::Where, AST::Str, AST::Use, AST::As, AST::Pub]),
        None
    );
    for row in table() {
        for place in 0..row.len() {
            let mut changed = row.clone();
            changed[place] = AST::NoMatch;
            assert_eq!(match_rule(&changed), None);
        }
        let mut longer = row.clone();
        longer.push(AST::Mod);
        assert_eq!(match_rule(&longer), None);
        let mut shorter = row.clone();
        shorter.pop();
        assert_eq!(match_rule(&shorter), None);
    }
}

#[test]
fn parser_reports_the_rule_of_the_invocation() {
    let text = "\"abc\" where \"^a.*$\" use as mod";
    let tokens = tokenize(text).unwrap();
    assert_eq!(
        categorize(&tokens),
        vec![AST::Str, AST::Where, AST::Str, AST::Use, AST::As, AST::Mod]
    );
    assert_eq!(parse(text, true).unwrap(), 1);
}

#[test]
fn parser_accepts_the_six_shapes() {
    assert_eq!(parse("\"d\" where \"p\" use as pub mod", true).unwrap(), 0);
    assert_eq!(parse("\"d\" where \"p\" use as mod", true).unwrap(), 1);
    assert_eq!(parse("\"d\" where \"p\" use as \"x::{}\"", true).unwrap(), 2);
    assert_eq!(parse("\"d\" use as pub mod", true).unwrap(), 3);
    assert_eq!(parse("\"d\" use as mod", true).unwrap(), 4);
    assert_eq!(parse("\"d\" use as \"x::{}\"", true).unwrap(), 5);
}

#[test]
fn parser_keeps_the_scope_on_success() {
    let text = "\"d\" use as mod";
    let mut scope = Scope::new(text, tokenize(text).unwrap());
    assert_eq!(scope.cursor, 0);
    assert_eq!(scope.document, text);
    assert_eq!(parser(&mut scope, true).unwrap(), 4);
    assert_eq!(scope.cursor, 0);
    assert_eq!(scope.identifiers.len(), 4);
    assert_eq!(scope.directory().as_deref(), Some("d"));
}

#[test]
fn misspelled_keyword_is_a_syntax_error() {
    let text = "\"d\" wherre \"p\" use as mod";
    let mut scope = Scope::new(text, tokenize(text).unwrap());
    let fault = parser(&mut scope, true).unwrap_err();
    assert_eq!(fault.kind(), ErrorKind::Syntax);
    match &fault {
        ImportError::SyntaxError { cursor, message } => {
            assert_eq!(*cursor, 11);
            assert_eq!(
                message,
                &format!("Invalid syntax: no grammar rule matches\n{}\n{}^", text, " ".repeat(10))
            );
        }
        other => panic!("{:?}", other),
    }
    assert_eq!(scope.cursor, 11);
    assert_eq!(fault.message(), format!("Invalid syntax: no grammar rule matches\n{}\n          ^", text));
}

#[test]
fn syntax_error_cursors() {
    let cursor_of = |text: &str| match parse(text, true) {
        Err(ImportError::SyntaxError { cursor, .. }) => cursor,
        other => panic!("{:?}", other),
    };
    assert_eq!(cursor_of(""), 0);
    assert_eq!(cursor_of("mod"), 3);
    assert_eq!(cursor_of("\"d\""), 3);
    assert_eq!(cursor_of("\"d\" use as"), 10);
    assert_eq!(cursor_of("\"d\" use as mod mod"), 18);
    assert_eq!(cursor_of("\"d\" use as pub"), 14);
    assert_eq!(cursor_of("\"d\" use mod"), 11);
    assert_eq!(cursor_of("\"d\" where use"), 13);
    assert_eq!(cursor_of("\"d\" , use as mod"), 5);
}

#[test]
fn mismatch_places() {
    assert_eq!(mismatch_at(&vec![]), 0);
    assert_eq!(mismatch_at(&vec![AST::Mod]), 0);
    assert_eq!(mismatch_at(&vec![AST::Str, AST::Use, AST::As]), 3);
    assert_eq!(mismatch_at(&vec![AST::Str, AST::Use, AST::As, AST::Mod, AST::Mod]), 4);
    assert_eq!(mismatch_at(&vec![AST::Str, AST::NoMatch, AST::Str]), 1);
    assert_eq!(mismatch_at(&vec![AST::Str, AST::Where, AST::Str, AST::Use, AST::As, AST::Mod]), 6);
}

#[test]
fn caret_lines() {
    assert_eq!(caret(0), "^");
    assert_eq!(caret(1), "^");
    assert_eq!(caret(2), " ^");
    assert_eq!(caret(5), "    ^");
}

#[test]
fn syntax_fault_of_tokens() {
    let text = "mod \"d\"";
    let tokens = tokenize(text).unwrap();
    let categories = categorize(&tokens);
    match syntax_fault(text, &tokens, &categories) {
        ImportError::SyntaxError { cursor, message } => {
            assert_eq!(cursor, 4);
            assert_eq!(message, "Invalid syntax: no grammar rule matches\nmod \"d\"\n   ^");
        }
        other => panic!("{:?}", other),
    }
}

#[test]
fn missing_directory_is_a_semantic_error() {
    for text in ["\"nowhere\" use as mod", "\"nowhere\" where \"(\" use as mod"] {
        let mut scope = Scope::new(text, tokenize(text).unwrap());
        let fault = parser(&mut scope, false).unwrap_err();
        assert_eq!(fault.kind(), ErrorKind::Semantic);
        match fault {
            ImportError::SemanticError { cursor, message } => {
                assert_eq!(cursor, 9);
                assert_eq!(message, "nowhere is not a valid directory");
            }
            other => panic!("{:?}", other),
        }
        assert_eq!(scope.cursor, 9);
    }
}

#[test]
fn invalid_pattern_is_a_semantic_error() {
    let text = "\"d\" where \"(\" use as pub mod";
    let mut scope = Scope::new(text, tokenize(text).unwrap());
    match parser(&mut scope, true).unwrap_err() {
        ImportError::SemanticError { cursor, message } => {
            assert_eq!(cursor, 13);
            assert_eq!(message, "( is not a valid regular expression");
        }
        other => panic!("{:?}", other),
    }
    assert_eq!(scope.cursor, 13);
    assert_eq!(parse("\"d\" where \"^((?!mod.rs).)*$\" use as pub mod", true).unwrap(), 0);
}

#[test]
fn pattern_is_not_looked_at_without_where() {
    assert_eq!(parse("\"d\" use as \"(\"", true).unwrap(), 5);
}

#[test]
fn semantic_phase_on_findings() {
    let text = "\"d\" where \"p\" use as mod";
    let tokens = tokenize(text).unwrap();
    assert!(semantic_check(1, &tokens, true, true).is_ok());
    match semantic_check(1, &tokens, true, false).unwrap_err() {
        ImportError::SemanticError { cursor, message } => {
            assert_eq!(cursor, 13);
            assert_eq!(message, "p is not a valid regular expression");
        }
        other => panic!("{:?}", other),
    }
    match semantic_check(1, &tokens, false, false).unwrap_err() {
        ImportError::SemanticError { cursor, message } => {
            assert_eq!(cursor, 3);
            assert_eq!(message, "d is not a valid directory");
        }
        other => panic!("{:?}", other),
    }
    assert!(semantic_check(4, &tokens, true, false).is_ok());
    assert!(semantic_check(4, &tokens, false, true).is_err());
    assert!(semantic_check(6, &tokens, false, false).is_ok());
    assert!(fase_two(1, &tokens, true).is_ok());
    assert!(fase_two(6, &tokens, false).is_ok());
    assert!(fase_two(3, &tokens, false).is_err());
}

#[test]
fn directory_and_pattern_checks() {
    assert_eq!(is_valid_directory("src", true), Ok(()));
    assert_eq!(is_valid_directory("src", false), Err("src is not a valid directory".to_string()));
    assert_eq!(is_valid_regex("^a.*$"), Ok(()));
    assert_eq!(is_valid_regex("^((?!mod.rs).)*$"), Ok(()));
    assert_eq!(is_valid_regex("a("), Err("a( is not a valid regular expression".to_string()));
    assert_eq!(is_valid_regex("[a"), Err("[a is not a valid regular expression".to_string()));
    assert_eq!(regex_verdict("x", true), Ok(()));
    assert_eq!(regex_verdict("x", false), Err("x is not a valid regular expression".to_string()));
}

#[test]
fn token_helpers() {
    let word = TokenInfo::new(Token::Identifier, Some("pub".to_string()), 3);
    assert_eq!(category(&word), AST::Pub);
    assert_eq!(content_of(&word), "pub");
    assert_eq!(content_of(&TokenInfo::default()), "");
    let scope = Scope::new("pub", vec![word]);
    assert_eq!(scope.directory(), None);
    assert_eq!(Scope::new("", vec![]).directory(), None);
}
