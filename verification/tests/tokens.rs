use import_modules::invocation::tokenize;
use import_modules::models::ast::AST;
use import_modules::models::token::{copy_tokens, Token, TokenInfo};
use import_modules::modules::lexical::{lexer, Scope};
use import_modules::text::{chars_of, decimal, same_text, text_of};

fn lex(text: &str) -> Vec<TokenInfo> {
    let mut scope = Scope::new(text.chars());
    lexer(&mut scope)
}

fn shape(tokens: &[TokenInfo]) -> Vec<(Token, String, usize)> {
    tokens
        .iter()
        .map(|t| (t.identifier, t.content.clone().unwrap_or_default(), t.cursor))
        .collect()
}

#[test]
fn token_from_name() {
    assert_eq!(Token::from("Identifier"), Token::Identifier);
    assert_eq!(Token::from("String"), Token::String);
    assert_eq!(Token::from("None"), Token::End);
    assert_eq!(Token::from("Unknown"), Token::Unknown);
    assert_eq!(Token::from("identifier"), Token::Unknown);
    assert_eq!(Token::from(""), Token::Unknown);
}

#[test]
fn token_to_string() {
    assert_eq!(Token::Identifier.to_string(), "Identifier");
    assert_eq!(Token::String.to_string(), "String");
    assert_eq!(Token::Unknown.to_string(), "Unknown");
    assert_eq!(Token::End.to_string(), "None");
}

#[test]
fn token_name_round_trip() {
    for token in [Token::Identifier, Token::String, Token::Unknown, Token::End] {
        assert_eq!(Token::from(&token.to_string()), token);
    }
}

#[test]
fn token_info_new_and_default() {
    let info = TokenInfo::new(Token::String, Some("abc".to_string()), 5);
    assert_eq!(info.identifier, Token::String);
    assert_eq!(info.content.as_deref(), Some("abc"));
    assert_eq!(info.cursor, 5);
    let empty = TokenInfo::default();
    assert_eq!(empty.identifier, Token::End);
    assert_eq!(empty.content, None);
    assert_eq!(empty.cursor, 0);
}

#[test]
fn token_info_clone_keeps_fields() {
    let info = TokenInfo::new(Token::Identifier, Some("where".to_string()), 12);
    let copy = info.clone();
    assert_eq!(copy.identifier, Token::Identifier);
    assert_eq!(copy.content.as_deref(), Some("where"));
    assert_eq!(copy.cursor, 12);
    let list = vec![info, TokenInfo::default()];
    let copies = copy_tokens(&list);
    assert_eq!(shape(&copies), shape(&list));
}

#[test]
fn category_of_words() {
    assert_eq!(AST::from("where"), AST::Where);
    assert_eq!(AST::from("use"), AST::Use);
    assert_eq!(AST::from("as"), AST::As);
    assert_eq!(AST::from("pub"), AST::Pub);
    assert_eq!(AST::from("mod"), AST::Mod);
    assert_eq!(AST::from("wherre"), AST::NoMatch);
    assert_eq!(AST::from("str"), AST::NoMatch);
    assert_eq!(AST::from(""), AST::NoMatch);
    assert_eq!(AST::from("Where"), AST::NoMatch);
    assert_eq!(AST::from("mod".to_string()), AST::Mod);
    assert_eq!(AST::from("model".to_string()), AST::NoMatch);
}

#[test]
fn category_of_tokens() {
    let word = |text: &str| TokenInfo::new(Token::Identifier, Some(text.to_string()), 1);
    assert_eq!(AST::from(word("use")), AST::Use);
    assert_eq!(AST::from(word("uses")), AST::NoMatch);
    assert_eq!(AST::from(TokenInfo::new(Token::Identifier, None, 1)), AST::NoMatch);
    assert_eq!(AST::from(TokenInfo::new(Token::String, Some("use".to_string()), 1)), AST::Str);
    assert_eq!(AST::from(TokenInfo::new(Token::String, None, 1)), AST::Str);
    assert_eq!(AST::from(TokenInfo::new(Token::Unknown, Some("use".to_string()), 1)), AST::NoMatch);
    assert_eq!(AST::from(TokenInfo::default()), AST::NoMatch);
}

#[test]
fn category_of_classes() {
    assert_eq!(AST::from(Token::Identifier), AST::Str);
    assert_eq!(AST::from(Token::String), AST::Str);
    assert_eq!(AST::from(Token::Unknown), AST::NoMatch);
    assert_eq!(AST::from(Token::End), AST::NoMatch);
}

#[test]
fn lexer_reads_the_invocation() {
    let tokens = lex("\"abc\" where \"^a.*$\" use as mod");
    assert_eq!(
        shape(&tokens),
        vec![
            (Token::String, "abc".to_string(), 5),
            (Token::Identifier, "where".to_string(), 12),
            (Token::String, "^a.*$".to_string(), 19),
            (Token::Identifier, "use".to_string(), 24),
            (Token::Identifier, "as".to_string(), 27),
            (Token::Identifier, "mod".to_string(), 30),
        ]
    );
}

#[test]
fn lexer_of_empty_text() {
    let mut scope = Scope::new("".chars());
    assert!(lexer(&mut scope).is_empty());
    assert_eq!(scope.cursor, 1);
    assert!(lex("    ").is_empty());
}

#[test]
fn lexer_drops_whitespace() {
    let tokens = lex("  a \t b\n");
    assert_eq!(
        shape(&tokens),
        vec![(Token::Identifier, "a".to_string(), 4), (Token::Identifier, "b".to_string(), 8)]
    );
}

#[test]
fn lexer_unknown_characters() {
    let tokens = lex("1 +");
    assert_eq!(
        shape(&tokens),
        vec![(Token::Unknown, "1".to_string(), 1), (Token::Unknown, "+".to_string(), 3)]
    );
    let tokens = lex("{}");
    assert_eq!(
        shape(&tokens),
        vec![(Token::Unknown, "{".to_string(), 1), (Token::Unknown, "}".to_string(), 2)]
    );
}

#[test]
fn lexer_identifier_runs_to_whitespace() {
    let tokens = lex("ab1\"c d");
    assert_eq!(
        shape(&tokens),
        vec![
            (Token::Identifier, "ab1\"c".to_string(), 6),
            (Token::Identifier, "d".to_string(), 7)
        ]
    );
}

#[test]
fn lexer_string_escapes() {
    let tokens = lex(r#""a\"b" "c\\" "d\n""#);
    assert_eq!(
        shape(&tokens),
        vec![
            (Token::String, "a\"b".to_string(), 6),
            (Token::String, "c\\".to_string(), 12),
            (Token::String, "dn".to_string(), 18),
        ]
    );
}

#[test]
fn lexer_string_keeps_whitespace_and_may_stay_open() {
    let tokens = lex("\"a b");
    assert_eq!(shape(&tokens), vec![(Token::String, "a b".to_string(), 4)]);
    let tokens = lex("\"\"");
    assert_eq!(shape(&tokens), vec![(Token::String, String::new(), 2)]);
    let tokens = lex("\"a\\");
    assert_eq!(shape(&tokens), vec![(Token::String, "a".to_string(), 3)]);
}

#[test]
fn lexer_cursors_increase() {
    let tokens = lex("\"x\" where \"y\" use as pub mod ! z");
    for pair in tokens.windows(2) {
        assert!(pair[0].cursor < pair[1].cursor);
    }
}

#[test]
fn lexer_appends_to_the_scope() {
    let mut scope = Scope::new("a b".chars());
    scope.identifiers.push(TokenInfo::new(Token::Unknown, Some("?".to_string()), 0));
    scope.cursor = 10;
    let tokens = lexer(&mut scope);
    assert_eq!(
        shape(&tokens),
        vec![
            (Token::Unknown, "?".to_string(), 0),
            (Token::Identifier, "a".to_string(), 12),
            (Token::Identifier, "b".to_string(), 13),
        ]
    );
    assert_eq!(shape(&scope.identifiers), shape(&tokens));
    assert_eq!(scope.cursor, 15);
    assert_eq!(scope.chars.next(), None);
    assert_eq!(shape(&lexer(&mut scope)), shape(&tokens));
}

#[test]
fn scope_next_counts_every_read() {
    let mut scope = Scope::new("ab".chars());
    assert_eq!(scope.cursor, 0);
    assert!(scope.identifiers.is_empty());
    assert_eq!(scope.next(), Some('a'));
    assert_eq!(scope.next(), Some('b'));
    assert_eq!(scope.next(), None);
    assert_eq!(scope.next(), None);
    assert_eq!(scope.cursor, 4);
}

#[test]
fn tokenize_reads_from_the_start() {
    let tokens = tokenize("\"src\" use as mod").unwrap();
    assert_eq!(
        shape(&tokens),
        vec![
            (Token::String, "src".to_string(), 5),
            (Token::Identifier, "use".to_string(), 10),
            (Token::Identifier, "as".to_string(), 13),
            (Token::Identifier, "mod".to_string(), 16),
        ]
    );
}

#[test]
fn text_helpers() {
    assert!(same_text("abc", "abc"));
    assert!(!same_text("abc", "abd"));
    assert!(!same_text("abc", "ab"));
    assert!(same_text("", ""));
    assert_eq!(chars_of("añ"), vec!['a', 'ñ']);
    assert_eq!(text_of(&vec!['a', 'ñ', '/']), "añ/");
}

#[test]
fn lexer_takes_every_white_space_character_for_a_separator() {
    for code in 0..=0x10FFFFu32 {
        if let Some(c) = char::from_u32(code) {
            let tokens = lex(&c.to_string());
            assert_eq!(tokens.is_empty(), c.is_whitespace(), "U+{:04X}", code);
        }
    }
    let tokens = lex("a\u{A0}b\u{3000}\u{2028}c");
    assert_eq!(
        shape(&tokens),
        vec![
            (Token::Identifier, "a".to_string(), 2),
            (Token::Identifier, "b".to_string(), 4),
            (Token::Identifier, "c".to_string(), 6),
        ]
    );
}

#[test]
fn cursor_counts_the_characters_consumed() {
    assert_eq!(shape(&lex("a")), vec![(Token::Identifier, "a".to_string(), 1)]);
    assert_eq!(shape(&lex("a ")), vec![(Token::Identifier, "a".to_string(), 2)]);
    assert_eq!(shape(&lex("\"a")), vec![(Token::String, "a".to_string(), 2)]);
    assert_eq!(shape(&lex("\"a\"")), vec![(Token::String, "a".to_string(), 3)]);
    assert_eq!(shape(&lex("\"")), vec![(Token::String, String::new(), 1)]);
    assert_eq!(shape(&lex("?")), vec![(Token::Unknown, "?".to_string(), 1)]);
    for text in [
        "a",
        "abc",
        "\"abc\" where \"^a.*$\" use as mod",
        "\"open",
        "\"esc\\",
        "x y  z",
        " lead",
        "trail ",
        "ü ñ \"é",
        "1+2",
    ] {
        let count = text.chars().count();
        let tokens = lex(text);
        assert!(!tokens.is_empty());
        for token in &tokens {
            assert!(1 <= token.cursor && token.cursor <= count, "{:?} in {:?}", token, text);
        }
        for pair in tokens.windows(2) {
            assert!(pair[0].cursor < pair[1].cursor);
        }
    }
    let mut scope = Scope::new("ab".chars());
    lexer(&mut scope);
    assert_eq!(scope.identifiers[0].cursor, 2);
    assert_eq!(scope.cursor, 4);
    let mut scope = Scope::new("ab ".chars());
    lexer(&mut scope);
    assert_eq!(scope.identifiers[0].cursor, 3);
    assert_eq!(scope.cursor, 4);
}

#[test]
fn decimal_writes_numbers() {
    assert_eq!(decimal(0), "0");
    assert_eq!(decimal(7), "7");
    assert_eq!(decimal(10), "10");
    assert_eq!(decimal(1234567890), "1234567890");
    assert_eq!(decimal(usize::MAX), usize::MAX.to_string());
    for n in 0..2000usize {
        assert_eq!(decimal(n), n.to_string());
    }
}
