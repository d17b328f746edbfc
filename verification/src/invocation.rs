use vstd::prelude::*;
use crate::config::{
    all_compile, compile_fault_text, compile_rules, first_fault, normalize, normalized,
    requested_rules, rule_requests, ScanConfig, ScanConfigView,
};
use crate::error::ImportError;
use crate::filter::FilterRuleView;
use crate::models::token::{token_views, TokenInfo, TokenView};
use crate::modules::lexical::{lex, lexer, Scope};
use crate::modules::syntactic;
use crate::models::ast::token_categories;
use crate::models::token::Token;
use crate::modules::syntactic::{
    content_of, content_text, fault_cursor, grammar_rule, has_where, is_semantic_fault,
    matched_rule, parser, pattern_finding, rule_count, semantic_fault, syntax_fault_text,
};
use vstd::string::StringExecFns;
use crate::output::{OutputPolicy, OutputPolicyView};
use crate::resolve::texts;

verus! {

/// Reads the tokens of an invocation text. Gives nothing where the text is
/// too long for its cursors to be counted.
pub fn tokenize(document: &str) -> (read: Option<Vec<TokenInfo>>)
    ensures
        read is Some <==> document@.len() + 2 <= usize::MAX,
        read matches Some(tokens) ==> token_views(tokens@) == lex(document@),
        read matches Some(tokens) ==> forall|k: int|
            0 <= k < tokens@.len() ==> 1 <= (#[trigger] tokens@[k]).cursor <= document@.len(),
{
    broadcast use vstd::string::axiom_spec_iter;

    let count = document.unicode_len();
    if count > usize::MAX - 2 {
        return None;
    }
    let mut scope = Scope::new(document.chars());
    let ghost given = token_views(scope.identifiers@);
    assert(given =~= Seq::<TokenView>::empty());
    let tokens = lexer(&mut scope);
    assert(given + lex(document@) =~= lex(document@));
    proof {
        assert(tokens@.len() == token_views(tokens@).len());
        assert(scope.identifiers@.len() == token_views(scope.identifiers@).len());
        assert forall|k: int| 0 <= k < tokens@.len() implies 1 <= (#[trigger] tokens@[k]).cursor
            <= document@.len() by {
            assert(token_views(tokens@)[k] == tokens@[k]@);
            assert(token_views(scope.identifiers@)[k] == scope.identifiers@[k]@);
        }
    }
    Some(tokens)
}

/// The form of the output that a shape asks for: `pub mod`, `mod`, or the
/// literal that is its last token, taken as a template.
pub open spec fn invocation_output(index: int, tokens: Seq<TokenView>) -> OutputPolicyView {
    if index == 0 || index == 3 {
        OutputPolicyView::RawDeclaration { is_public: true, is_module: true, entry_suffix: None }
    } else if index == 1 || index == 4 {
        OutputPolicyView::RawDeclaration { is_public: false, is_module: true, entry_suffix: None }
    } else {
        OutputPolicyView::InterProcessTemplate { template: content_text(tokens.last()) }
    }
}

/// The rules of an invocation: the pattern after `where`, which a file
/// must match to take part, where the shape has one; and the default
/// exclusions.
pub open spec fn invocation_rules(index: int, tokens: Seq<TokenView>, separator: char) -> Seq<
    FilterRuleView,
> {
    requested_rules(
        Seq::<Seq<char>>::empty(),
        Seq::<Seq<char>>::empty(),
        if has_where(index) {
            seq![content_text(tokens[2])]
        } else {
            Seq::<Seq<char>>::empty()
        },
        Seq::<Seq<char>>::empty(),
        separator,
    )
}

/// What a validated invocation resolves to: a scan of the directory that
/// its first token names, without descent.
pub open spec fn invocation_resolution(index: int, tokens: Seq<TokenView>, separator: char)
    -> ScanConfigView {
    ScanConfigView {
        root: normalized(content_text(tokens[0]), separator),
        separator,
        recursive: false,
        filters: invocation_rules(index, tokens, separator),
        output: invocation_output(index, tokens),
        glue: Seq::<char>::empty(),
        post_process: None,
    }
}

/// Resolves the tokens of an invocation that has the shape `index`. Fails
/// with a pattern error where the pattern, or a default exclusion, does not
/// compile; on no other input.
pub fn invocation_config(index: usize, tokens: &Vec<TokenInfo>, separator: char) -> (resolved:
    Result<ScanConfig, ImportError>)
    requires
        index < rule_count(),
        tokens.len() == grammar_rule(index as int).len(),
    ensures
        match resolved {
            Ok(config) => all_compile(
                invocation_rules(index as int, token_views(tokens@), separator),
            ) && config@ == invocation_resolution(index as int, token_views(tokens@), separator),
            Err(fault) => fault == (ImportError::PatternError {
                message: fault->PatternError_message,
            }) && exists|at: int| #[trigger]
                first_fault(invocation_rules(index as int, token_views(tokens@), separator), at)
                    && fault.text() == compile_fault_text(
                    invocation_rules(index as int, token_views(tokens@), separator)[at],
                ),
        },
{
    let ghost views = token_views(tokens@);
    let nothing: Vec<String> = Vec::new();
    let mut include_files: Vec<String> = Vec::new();
    assert(texts(nothing@) =~= Seq::<Seq<char>>::empty());
    if index <= 2 {
        let pattern = content_of(&tokens[2]);
        include_files.push(pattern);
        assert(texts(include_files@) =~= seq![content_text(views[2])]);
    } else {
        assert(texts(include_files@) =~= Seq::<Seq<char>>::empty());
    }
    let requests = rule_requests(&nothing, &nothing, &include_files, &nothing, separator);
    let filters = match compile_rules(&requests) {
        Ok(rules) => rules,
        Err(fault) => {
            return Err(fault);
        },
    };
    let directory = content_of(&tokens[0]);
    let root = normalize(directory.as_str(), separator);
    let output = if index == 0 || index == 3 {
        OutputPolicy::RawDeclaration { is_public: true, is_module: true, entry_suffix: None }
    } else if index == 1 || index == 4 {
        OutputPolicy::RawDeclaration { is_public: false, is_module: true, entry_suffix: None }
    } else {
        assert(views.last() == tokens@[tokens.len() - 1]@);
        OutputPolicy::InterProcessTemplate { template: content_of(&tokens[tokens.len() - 1]) }
    };
    Ok(
        ScanConfig {
            root,
            separator,
            recursive: false,
            filters,
            output,
            glue: String::new(),
            post_process: None,
        },
    )
}

/// The error text for an invocation that is too long to be read.
pub open spec fn length_fault_text() -> Seq<char> {
    "The invocation is too long"@
}

/// Whether `resolved` is what an invocation text resolves to.
///
/// The text is read into tokens and these are validated: an invocation
/// that has none of the accepted shapes is a syntax error, one whose
/// directory does not exist or whose pattern is no regular expression is a
/// semantic error. A valid one resolves to the scan that its shape asks
/// for, unless a default exclusion does not compile.
pub open spec fn invocation_outcome(
    document: Seq<char>,
    directory_exists: bool,
    separator: char,
    resolved: Result<ScanConfig, ImportError>,
) -> bool {
    let tokens = lex(document);
    if document.len() + 2 > usize::MAX {
        &&& resolved matches Err(ImportError::SyntaxError { cursor, message })
        &&& cursor == 0
        &&& message@ == length_fault_text()
    } else {
        match matched_rule(token_categories(tokens)) {
            None => {
                &&& resolved matches Err(ImportError::SyntaxError { cursor, message })
                &&& cursor == fault_cursor(tokens)
                &&& message@ == syntax_fault_text(document, cursor as nat)
            },
            Some(index) => {
                let fault = semantic_fault(
                    index,
                    tokens,
                    directory_exists,
                    pattern_finding(index, tokens),
                );
                if fault is Some {
                    resolved matches Err(error) && is_semantic_fault(error, fault)
                } else {
                    match resolved {
                        Ok(config) => all_compile(invocation_rules(index, tokens, separator))
                            && config@ == invocation_resolution(index, tokens, separator),
                        Err(error) => error == (ImportError::PatternError {
                            message: error->PatternError_message,
                        }) && exists|at: int| #[trigger]
                            first_fault(invocation_rules(index, tokens, separator), at)
                                && error.text() == compile_fault_text(
                                invocation_rules(index, tokens, separator)[at],
                            ),
                    }
                }
            },
        }
    }
}

/// The directory that an invocation text names: the text of its first
/// token, where that is a string.
pub fn directory_of(document: &str) -> (named: Option<String>)
    ensures
        match named {
            Some(path) => document@.len() + 2 <= usize::MAX && lex(document@).len() > 0 && lex(
                document@,
            )[0].identifier == Token::String && path@ == content_text(lex(document@)[0]),
            None => document@.len() + 2 > usize::MAX || lex(document@).len() == 0 || lex(
                document@,
            )[0].identifier != Token::String,
        },
{
    match tokenize(document) {
        Some(tokens) => {
            let scope = syntactic::Scope::new(document, tokens);
            assert(scope.identifiers@.len() == token_views(scope.identifiers@).len());
            if scope.identifiers.len() > 0 {
                assert(token_views(scope.identifiers@)[0] == scope.identifiers@[0]@);
            }
            scope.directory()
        },
        None => None,
    }
}

/// Resolves an invocation text, given whether the directory it names
/// exists.
pub fn resolve_invocation(document: &str, directory_exists: bool, separator: char) -> (resolved:
    Result<ScanConfig, ImportError>)
    ensures
        invocation_outcome(document@, directory_exists, separator, resolved),
{
    let tokens = match tokenize(document) {
        Some(tokens) => tokens,
        None => {
            return Err(
                ImportError::SyntaxError {
                    cursor: 0,
                    message: String::from_str("The invocation is too long"),
                },
            );
        },
    };
    let mut scope = syntactic::Scope::new(document, tokens);
    let index = match parser(&mut scope, directory_exists) {
        Ok(index) => index,
        Err(fault) => {
            return Err(fault);
        },
    };
    assert(token_categories(token_views(scope.identifiers@)).len() == scope.identifiers@.len());
    invocation_config(index, &scope.identifiers, separator)
}

} // verus!
