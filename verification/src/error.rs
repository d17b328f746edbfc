use vstd::prelude::*;

verus! {

/// Why a resolution was given up. Every kind ends the whole resolution; none
/// leaves partial output.
#[derive(Debug)]
pub enum ImportError {
    /// The root directory is missing or is not a directory.
    PathError { message: String },
    /// A pattern does not compile, or the engine gave up while matching it.
    PatternError { message: String },
    /// Options that exclude each other are both set.
    ConfigError { message: String },
    /// The tokens of a textual invocation have none of the accepted shapes.
    SyntaxError { cursor: usize, message: String },
    /// A well-shaped textual invocation names a directory that does not exist
    /// or holds an invalid pattern.
    SemanticError { cursor: usize, message: String },
}

/// The kind of an error, without its text.
#[derive(Clone, Copy, Debug, PartialEq, Eq, Structural)]
pub enum ErrorKind {
    Path,
    Pattern,
    Config,
    Syntax,
    Semantic,
}

impl ImportError {
    /// The kind of this error.
    pub open spec fn kind_spec(&self) -> ErrorKind {
        match self {
            ImportError::PathError { .. } => ErrorKind::Path,
            ImportError::PatternError { .. } => ErrorKind::Pattern,
            ImportError::ConfigError { .. } => ErrorKind::Config,
            ImportError::SyntaxError { .. } => ErrorKind::Syntax,
            ImportError::SemanticError { .. } => ErrorKind::Semantic,
        }
    }

    /// The diagnostic text of this error.
    pub open spec fn text(&self) -> Seq<char> {
        match self {
            ImportError::PathError { message } => message@,
            ImportError::PatternError { message } => message@,
            ImportError::ConfigError { message } => message@,
            ImportError::SyntaxError { message, .. } => message@,
            ImportError::SemanticError { message, .. } => message@,
        }
    }

    /// The kind of this error.
    #[verifier::when_used_as_spec(kind_spec)]
    pub fn kind(&self) -> (kind: ErrorKind)
        ensures
            kind == self.kind_spec(),
    {
        match self {
            ImportError::PathError { .. } => ErrorKind::Path,
            ImportError::PatternError { .. } => ErrorKind::Pattern,
            ImportError::ConfigError { .. } => ErrorKind::Config,
            ImportError::SyntaxError { .. } => ErrorKind::Syntax,
            ImportError::SemanticError { .. } => ErrorKind::Semantic,
        }
    }

    /// The diagnostic text of this error.
    pub fn message(&self) -> (message: String)
        ensures
            message@ == self.text(),
    {
        match self {
            ImportError::PathError { message } => message.clone(),
            ImportError::PatternError { message } => message.clone(),
            ImportError::ConfigError { message } => message.clone(),
            ImportError::SyntaxError { message, .. } => message.clone(),
            ImportError::SemanticError { message, .. } => message.clone(),
        }
    }
}

} // verus!
