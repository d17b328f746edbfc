use vstd::prelude::*;
use crate::text::same_text;

verus! {

/// The lexical class of a token. `End` stands for an exhausted stream; its
/// name as text is `None`.
#[derive(Clone, Copy, Debug, PartialEq, Eq, Structural)]
pub enum Token {
    Identifier,
    String,
    Unknown,
    End,
}

/// The name of a lexical class, as text.
pub open spec fn token_name(token: Token) -> Seq<char> {
    match token {
        Token::Identifier => "Identifier"@,
        Token::String => "String"@,
        Token::Unknown => "Unknown"@,
        Token::End => "None"@,
    }
}

/// The lexical class that a name stands for; any text that is not the name
/// of `Identifier`, `String` or `End` stands for `Unknown`.
pub open spec fn token_from_name(name: Seq<char>) -> Token {
    if name == "Identifier"@ {
        Token::Identifier
    } else if name == "String"@ {
        Token::String
    } else if name == "None"@ {
        Token::End
    } else {
        Token::Unknown
    }
}

impl Token {
    /// The lexical class that a name stands for.
    pub fn from(entry: &str) -> (token: Token)
        ensures
            token == token_from_name(entry@),
    {
        if same_text(entry, "Identifier") {
            Token::Identifier
        } else if same_text(entry, "String") {
            Token::String
        } else if same_text(entry, "None") {
            Token::End
        } else {
            Token::Unknown
        }
    }

    /// The name of this lexical class.
    pub fn to_string(&self) -> (name: String)
        ensures
            name@ == token_name(*self),
    {
        match self {
            Token::Identifier => String::from_str("Identifier"),
            Token::String => String::from_str("String"),
            Token::Unknown => String::from_str("Unknown"),
            Token::End => String::from_str("None"),
        }
    }
}

/// One token of an invocation text: its class, the text it holds, and the
/// count of characters consumed when it was completed.
#[derive(Debug)]
pub struct TokenInfo {
    pub identifier: Token,
    pub content: Option<String>,
    pub cursor: usize,
}

/// The mathematical value of a `TokenInfo`.
pub ghost struct TokenView {
    pub identifier: Token,
    pub content: Option<Seq<char>>,
    pub cursor: nat,
}

impl View for TokenInfo {
    type V = TokenView;

    open spec fn view(&self) -> TokenView {
        TokenView {
            identifier: self.identifier,
            content: match self.content {
                Some(text) => Some(text@),
                None => None,
            },
            cursor: self.cursor as nat,
        }
    }
}

/// The values of a sequence of tokens, in order.
pub open spec fn token_views(tokens: Seq<TokenInfo>) -> Seq<TokenView> {
    tokens.map_values(|token: TokenInfo| token@)
}

impl TokenInfo {
    /// A token of the given class, text and cursor.
    pub fn new(identifier: Token, content: Option<String>, cursor: usize) -> (info: TokenInfo)
        ensures
            info.identifier == identifier,
            info.content == content,
            info.cursor == cursor,
    {
        TokenInfo { identifier, content, cursor }
    }
}

impl Clone for TokenInfo {
    fn clone(&self) -> (copy: TokenInfo)
        ensures
            copy@ == self@,
    {
        let content = match &self.content {
            Some(text) => Some(text.clone()),
            None => None,
        };
        TokenInfo { identifier: self.identifier, content, cursor: self.cursor }
    }
}

/// A copy of a list of tokens.
pub fn copy_tokens(tokens: &Vec<TokenInfo>) -> (copy: Vec<TokenInfo>)
    ensures
        token_views(copy@) == token_views(tokens@),
{
    let mut copy: Vec<TokenInfo> = Vec::new();
    let mut at: usize = 0;
    while at < tokens.len()
        invariant
            at <= tokens.len(),
            copy@.len() == at,
            forall|k: int| 0 <= k < at ==> copy@[k]@ == tokens@[k]@,
        decreases tokens.len() - at,
    {
        copy.push(tokens[at].clone());
        at += 1;
    }
    assert(token_views(copy@) =~= token_views(tokens@));
    copy
}

impl Default for TokenInfo {
    fn default() -> (info: TokenInfo)
        ensures
            info.identifier == Token::End,
            info.content is None,
            info.cursor == 0,
    {
        TokenInfo { identifier: Token::End, content: None, cursor: 0 }
    }
}

} // verus!
