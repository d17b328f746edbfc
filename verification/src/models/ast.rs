use vstd::prelude::*;
use vstd::std_specs::convert::FromSpecImpl;
use crate::text::same_text;
use super::token::{Token, TokenInfo, TokenView};

verus! {

/// The syntax category of a token. `NoMatch` is the category of every
/// identifier that is not a keyword and of every token that is neither an
/// identifier nor a string; no accepted shape holds it.
#[derive(Clone, Copy, Debug, PartialEq, Eq, Structural)]
pub enum AST {
    Str,
    Where,
    Use,
    As,
    Pub,
    Mod,
    NoMatch,
}

/// The keyword table: the category of a word.
pub open spec fn keyword_category(word: Seq<char>) -> AST {
    if word == "where"@ {
        AST::Where
    } else if word == "use"@ {
        AST::Use
    } else if word == "as"@ {
        AST::As
    } else if word == "pub"@ {
        AST::Pub
    } else if word == "mod"@ {
        AST::Mod
    } else {
        AST::NoMatch
    }
}

/// The category of a lexical class taken without its text: both textual
/// classes count as `Str`.
pub open spec fn class_category(class: Token) -> AST {
    match class {
        Token::Identifier => AST::Str,
        Token::String => AST::Str,
        _ => AST::NoMatch,
    }
}

/// The category of a token: a string is `Str`, an identifier is what the
/// keyword table gives for its text (the empty text where it holds none),
/// anything else is `NoMatch`.
pub open spec fn token_category(token: TokenView) -> AST {
    match token.identifier {
        Token::Identifier => keyword_category(
            match token.content {
                Some(text) => text,
                None => Seq::<char>::empty(),
            },
        ),
        Token::String => AST::Str,
        _ => AST::NoMatch,
    }
}

/// The categories of a sequence of tokens, in order.
pub open spec fn token_categories(tokens: Seq<TokenView>) -> Seq<AST> {
    tokens.map_values(|token: TokenView| token_category(token))
}

impl<'a> From<&'a str> for AST {
    fn from(entry: &'a str) -> (category: AST) {
        if same_text(entry, "where") {
            AST::Where
        } else if same_text(entry, "use") {
            AST::Use
        } else if same_text(entry, "as") {
            AST::As
        } else if same_text(entry, "pub") {
            AST::Pub
        } else if same_text(entry, "mod") {
            AST::Mod
        } else {
            AST::NoMatch
        }
    }
}

impl<'a> FromSpecImpl<&'a str> for AST {
    open spec fn obeys_from_spec() -> bool {
        true
    }

    open spec fn from_spec(entry: &'a str) -> AST {
        keyword_category(entry@)
    }
}

impl From<String> for AST {
    fn from(value: String) -> (category: AST) {
        <AST as From<&str>>::from(value.as_str())
    }
}

impl FromSpecImpl<String> for AST {
    open spec fn obeys_from_spec() -> bool {
        true
    }

    open spec fn from_spec(value: String) -> AST {
        keyword_category(value@)
    }
}

impl From<Token> for AST {
    fn from(entry: Token) -> (category: AST) {
        match entry {
            Token::Identifier => AST::Str,
            Token::String => AST::Str,
            _ => AST::NoMatch,
        }
    }
}

impl FromSpecImpl<Token> for AST {
    open spec fn obeys_from_spec() -> bool {
        true
    }

    open spec fn from_spec(entry: Token) -> AST {
        class_category(entry)
    }
}

impl From<TokenInfo> for AST {
    fn from(entry: TokenInfo) -> (category: AST) {
        match entry.identifier {
            Token::Identifier => match entry.content {
                Some(text) => <AST as From<String>>::from(text),
                None => <AST as From<String>>::from(String::new()),
            },
            Token::String => AST::Str,
            _ => AST::NoMatch,
        }
    }
}

impl FromSpecImpl<TokenInfo> for AST {
    open spec fn obeys_from_spec() -> bool {
        true
    }

    open spec fn from_spec(entry: TokenInfo) -> AST {
        token_category(entry@)
    }
}

} // verus!
