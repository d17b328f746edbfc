use vstd::prelude::*;
use vstd::string::StringExecFns;
use crate::error::ImportError;
use crate::models::ast::{token_categories, token_category, AST};
use crate::models::token::{token_views, Token, TokenInfo, TokenView};
use crate::pattern::{compile, compiles};
use crate::text::push_char;

verus! {

/// The state of one validation: the tokens, the text they were read from,
/// and the cursor of the token that the last failure was reported at.
pub struct Scope<'a> {
    pub identifiers: Vec<TokenInfo>,
    pub document: &'a str,
    pub cursor: usize,
}

impl<'a> Scope<'a> {
    /// A validation of `identifiers`, the tokens of `document`.
    pub fn new(document: &'a str, identifiers: Vec<TokenInfo>) -> (scope: Scope<'a>)
        ensures
            scope.identifiers == identifiers,
            scope.document == document,
            scope.cursor == 0,
    {
        Scope { identifiers, document, cursor: 0 }
    }
}

/// The number of accepted shapes.
pub open spec fn rule_count() -> int {
    6
}

/// The table of accepted shapes: a directory, an optional pattern after
/// `where`, and after `use as` the form of the output, which is `pub mod`,
/// `mod` or a literal.
pub open spec fn grammar_rule(index: int) -> Seq<AST> {
    if index == 0 {
        seq![AST::Str, AST::Where, AST::Str, AST::Use, AST::As, AST::Pub, AST::Mod]
    } else if index == 1 {
        seq![AST::Str, AST::Where, AST::Str, AST::Use, AST::As, AST::Mod]
    } else if index == 2 {
        seq![AST::Str, AST::Where, AST::Str, AST::Use, AST::As, AST::Str]
    } else if index == 3 {
        seq![AST::Str, AST::Use, AST::As, AST::Pub, AST::Mod]
    } else if index == 4 {
        seq![AST::Str, AST::Use, AST::As, AST::Mod]
    } else {
        seq![AST::Str, AST::Use, AST::As, AST::Str]
    }
}

/// Whether the categories are those of the shape `index`, one for one.
pub open spec fn accepts(index: int, categories: Seq<AST>) -> bool {
    0 <= index < rule_count() && categories == grammar_rule(index)
}

/// The first shape in table order that the categories have.
pub open spec fn matched_rule(categories: Seq<AST>) -> Option<int> {
    if accepts(0, categories) {
        Some(0)
    } else if accepts(1, categories) {
        Some(1)
    } else if accepts(2, categories) {
        Some(2)
    } else if accepts(3, categories) {
        Some(3)
    } else if accepts(4, categories) {
        Some(4)
    } else if accepts(5, categories) {
        Some(5)
    } else {
        None
    }
}

/// Whether the first `upto` categories are the first `upto` of shape `index`.
pub open spec fn fits(categories: Seq<AST>, upto: int, index: int) -> bool {
    &&& 0 <= upto <= categories.len()
    &&& upto <= grammar_rule(index).len()
    &&& categories.take(upto) == grammar_rule(index).take(upto)
}

/// Whether some shape begins with the first `upto` categories.
pub open spec fn viable(categories: Seq<AST>, upto: int) -> bool {
    exists|index: int| 0 <= index < rule_count() && fits(categories, upto, index)
}

/// The place of the first category from `from` on that no shape admits
/// after those before it; the number of categories where there is none.
pub open spec fn first_unfit(categories: Seq<AST>, from: int) -> int
    decreases categories.len() - from,
{
    if from < 0 || from >= categories.len() {
        categories.len() as int
    } else if !viable(categories, from + 1) {
        from
    } else {
        first_unfit(categories, from + 1)
    }
}

/// The cursor that a syntax error reports: that of the first token that no
/// shape admits in its place; where every token has its place and the
/// invocation ends too early, that of the last token; zero where there is no
/// token.
pub open spec fn fault_cursor(tokens: Seq<TokenView>) -> nat {
    let place = first_unfit(token_categories(tokens), 0);
    if place < tokens.len() {
        tokens[place].cursor
    } else if tokens.len() > 0 {
        tokens.last().cursor
    } else {
        0
    }
}

/// The line that points at column `cursor`, counted from one.
pub open spec fn caret_line(cursor: nat) -> Seq<char> {
    Seq::new(
        if cursor > 0 {
            (cursor - 1) as nat
        } else {
            0
        },
        |k: int| ' ',
    ).push('^')
}

/// The text of a syntax error: what went wrong, the invocation, and a caret
/// beneath the column of the cursor.
pub open spec fn syntax_fault_text(document: Seq<char>, cursor: nat) -> Seq<char> {
    "Invalid syntax: no grammar rule matches\n"@ + document + seq!['\n'] + caret_line(cursor)
}

/// The row `index` of the table.
pub fn rule(index: usize) -> (row: Vec<AST>)
    requires
        index < rule_count(),
    ensures
        row@ == grammar_rule(index as int),
{
    let row = if index == 0 {
        vec![AST::Str, AST::Where, AST::Str, AST::Use, AST::As, AST::Pub, AST::Mod]
    } else if index == 1 {
        vec![AST::Str, AST::Where, AST::Str, AST::Use, AST::As, AST::Mod]
    } else if index == 2 {
        vec![AST::Str, AST::Where, AST::Str, AST::Use, AST::As, AST::Str]
    } else if index == 3 {
        vec![AST::Str, AST::Use, AST::As, AST::Pub, AST::Mod]
    } else if index == 4 {
        vec![AST::Str, AST::Use, AST::As, AST::Mod]
    } else {
        vec![AST::Str, AST::Use, AST::As, AST::Str]
    };
    assert(row@ =~= grammar_rule(index as int));
    row
}

/// The category of a token.
pub fn category(token: &TokenInfo) -> (found: AST)
    ensures
        found == token_category(token@),
{
    match token.identifier {
        Token::Identifier => match &token.content {
            Some(text) => <AST as From<&str>>::from(text.as_str()),
            None => {
                let nothing = String::new();
                <AST as From<&str>>::from(nothing.as_str())
            },
        },
        Token::String => AST::Str,
        _ => AST::NoMatch,
    }
}

/// The categories of the tokens, in order.
pub fn categorize(tokens: &Vec<TokenInfo>) -> (categories: Vec<AST>)
    ensures
        categories@ == token_categories(token_views(tokens@)),
{
    let mut categories: Vec<AST> = Vec::new();
    let mut at: usize = 0;
    while at < tokens.len()
        invariant
            at <= tokens.len(),
            categories@.len() == at,
            forall|k: int| 0 <= k < at ==> categories@[k] == token_category(tokens@[k]@),
        decreases tokens.len() - at,
    {
        categories.push(category(&tokens[at]));
        at += 1;
    }
    assert(categories@ =~= token_categories(token_views(tokens@)));
    categories
}

fn fits_row(categories: &Vec<AST>, upto: usize, row: &Vec<AST>) -> (yes: bool)
    requires
        upto <= categories.len(),
    ensures
        yes == (upto <= row.len() && categories@.take(upto as int) == row@.take(upto as int)),
{
    if upto > row.len() {
        return false;
    }
    let mut at: usize = 0;
    while at < upto
        invariant
            at <= upto,
            upto <= row.len(),
            upto <= categories.len(),
            forall|k: int| 0 <= k < at ==> categories@[k] == row@[k],
        decreases upto - at,
    {
        if categories[at] != row[at] {
            assert(categories@.take(upto as int)[at as int] != row@.take(upto as int)[at as int]);
            return false;
        }
        at += 1;
    }
    assert(categories@.take(upto as int) =~= row@.take(upto as int));
    true
}

/// The first row of the table that the categories are equal to, in length
/// and place by place; nothing where they are equal to none.
pub fn match_rule(categories: &Vec<AST>) -> (found: Option<usize>)
    ensures
        match found {
            Some(index) => matched_rule(categories@) == Some(index as int),
            None => matched_rule(categories@) is None,
        },
{
    let mut index: usize = 0;
    while index < 6
        invariant
            index <= 6,
            forall|k: int| 0 <= k < index ==> !accepts(k, categories@),
        decreases 6 - index,
    {
        let row = rule(index);
        if row.len() == categories.len() && fits_row(categories, categories.len(), &row) {
            assert(categories@.take(categories.len() as int) =~= categories@);
            assert(row@.take(categories.len() as int) =~= row@);
            assert(accepts(index as int, categories@));
            return Some(index);
        }
        proof {
            if accepts(index as int, categories@) {
                assert(categories@.take(categories.len() as int) =~= row@.take(
                    categories.len() as int,
                ));
            }
        }
        index += 1;
    }
    None
}

fn is_viable(categories: &Vec<AST>, upto: usize) -> (yes: bool)
    requires
        upto <= categories.len(),
    ensures
        yes == viable(categories@, upto as int),
{
    let mut index: usize = 0;
    while index < 6
        invariant
            index <= 6,
            upto <= categories.len(),
            forall|k: int| 0 <= k < index ==> !fits(categories@, upto as int, k),
        decreases 6 - index,
    {
        let row = rule(index);
        if fits_row(categories, upto, &row) {
            assert(fits(categories@, upto as int, index as int));
            return true;
        }
        index += 1;
    }
    false
}

/// The place of the first category that no row of the table admits after
/// those before it; the number of categories where each has its place.
pub fn mismatch_at(categories: &Vec<AST>) -> (place: usize)
    ensures
        place == first_unfit(categories@, 0),
        place <= categories.len(),
{
    let mut at: usize = 0;
    while at < categories.len()
        invariant
            at <= categories.len(),
            first_unfit(categories@, 0) == first_unfit(categories@, at as int),
        decreases categories.len() - at,
    {
        if !is_viable(categories, at + 1) {
            return at;
        }
        at += 1;
    }
    at
}

/// The text that a token holds; the empty text where it holds none.
pub open spec fn content_text(token: TokenView) -> Seq<char> {
    match token.content {
        Some(text) => text,
        None => Seq::<char>::empty(),
    }
}

/// The error text for a directory that does not exist.
pub open spec fn directory_fault_text(path: Seq<char>) -> Seq<char> {
    path + " is not a valid directory"@
}

/// The error text for a pattern that is no regular expression.
pub open spec fn regex_fault_text(pattern: Seq<char>) -> Seq<char> {
    pattern + " is not a valid regular expression"@
}

/// Whether shape `typ` holds a pattern after `where`.
pub open spec fn has_where(typ: int) -> bool {
    0 <= typ <= 2
}

/// What the semantic phase finds wrong with a well-shaped invocation, as
/// the cursor of the offending token and the error text: first the
/// directory, which is the first token; then, in a shape with `where`, the
/// pattern, which is the third.
pub open spec fn semantic_fault(
    typ: int,
    tokens: Seq<TokenView>,
    directory_exists: bool,
    pattern_valid: bool,
) -> Option<(nat, Seq<char>)> {
    if !(0 <= typ < rule_count()) {
        None
    } else if !directory_exists {
        Some((tokens[0].cursor, directory_fault_text(content_text(tokens[0]))))
    } else if has_where(typ) && !pattern_valid {
        Some((tokens[2].cursor, regex_fault_text(content_text(tokens[2]))))
    } else {
        None
    }
}

/// Whether an error is the semantic error that `fault` describes.
pub open spec fn is_semantic_fault(error: ImportError, fault: Option<(nat, Seq<char>)>) -> bool {
    &&& error matches ImportError::SemanticError { cursor, message }
    &&& fault == Some((cursor as nat, message@))
}

/// Accepts a directory that exists; else gives the error text.
pub fn is_valid_directory(path: &str, exists: bool) -> (checked: Result<(), String>)
    ensures
        match checked {
            Ok(_) => exists,
            Err(message) => !exists && message@ == directory_fault_text(path@),
        },
{
    if exists {
        Ok(())
    } else {
        let mut message = String::from_str(path);
        message.append(" is not a valid directory");
        Err(message)
    }
}

/// Accepts a pattern that compiled; else gives the error text.
pub fn regex_verdict(regex: &str, compiled: bool) -> (checked: Result<(), String>)
    ensures
        match checked {
            Ok(_) => compiled,
            Err(message) => !compiled && message@ == regex_fault_text(regex@),
        },
{
    if compiled {
        Ok(())
    } else {
        let mut message = String::from_str(regex);
        message.append(" is not a valid regular expression");
        Err(message)
    }
}

/// Accepts a text that compiles as a regular expression; else gives the
/// error text.
pub fn is_valid_regex(regex: &str) -> (checked: Result<(), String>)
    ensures
        match checked {
            Ok(_) => compiles(regex@),
            Err(message) => !compiles(regex@) && message@ == regex_fault_text(regex@),
        },
{
    let compiled = compile(regex).is_some();
    regex_verdict(regex, compiled)
}

/// The text that a token holds; the empty text where it holds none.
pub fn content_of(token: &TokenInfo) -> (text: String)
    ensures
        text@ == content_text(token@),
{
    match &token.content {
        Some(text) => text.clone(),
        None => String::new(),
    }
}

/// The semantic phase on given findings: whether the directory exists and
/// whether the pattern compiled.
pub fn semantic_check(
    typ: usize,
    data: &Vec<TokenInfo>,
    directory_exists: bool,
    pattern_valid: bool,
) -> (checked: Result<(), ImportError>)
    requires
        typ < rule_count() ==> data.len() >= 1,
        has_where(typ as int) ==> data.len() >= 3,
    ensures
        match checked {
            Ok(_) => semantic_fault(
                typ as int,
                token_views(data@),
                directory_exists,
                pattern_valid,
            ) is None,
            Err(fault) => is_semantic_fault(
                fault,
                semantic_fault(typ as int, token_views(data@), directory_exists, pattern_valid),
            ),
        },
{
    if typ >= 6 {
        return Ok(());
    }
    let directory = content_of(&data[0]);
    match is_valid_directory(directory.as_str(), directory_exists) {
        Ok(_) => {},
        Err(message) => {
            return Err(ImportError::SemanticError { cursor: data[0].cursor, message });
        },
    }
    if typ <= 2 {
        let pattern = content_of(&data[2]);
        match regex_verdict(pattern.as_str(), pattern_valid) {
            Ok(_) => {},
            Err(message) => {
                return Err(ImportError::SemanticError { cursor: data[2].cursor, message });
            },
        }
    }
    Ok(())
}

/// Whether the pattern of a well-shaped invocation counts as valid: in a
/// shape with `where`, whether the text of the third token compiles.
pub open spec fn pattern_finding(typ: int, tokens: Seq<TokenView>) -> bool {
    has_where(typ) ==> compiles(content_text(tokens[2]))
}

/// The semantic phase of the validation of shape `typ`: the directory named
/// by the first token must exist, and in a shape with `where` the third
/// token must hold a regular expression.
pub fn fase_two(typ: usize, data: &Vec<TokenInfo>, directory_exists: bool) -> (checked: Result<
    (),
    ImportError,
>)
    requires
        typ < rule_count() ==> data.len() >= 1,
        has_where(typ as int) ==> data.len() >= 3,
    ensures
        match checked {
            Ok(_) => semantic_fault(
                typ as int,
                token_views(data@),
                directory_exists,
                pattern_finding(typ as int, token_views(data@)),
            ) is None,
            Err(fault) => is_semantic_fault(
                fault,
                semantic_fault(
                    typ as int,
                    token_views(data@),
                    directory_exists,
                    pattern_finding(typ as int, token_views(data@)),
                ),
            ),
        },
{
    let pattern_valid = if typ <= 2 {
        let pattern = content_of(&data[2]);
        is_valid_regex(pattern.as_str()).is_ok()
    } else {
        true
    };
    semantic_check(typ, data, directory_exists, pattern_valid)
}

/// The line that points at column `cursor`.
pub fn caret(cursor: usize) -> (line: String)
    ensures
        line@ == caret_line(cursor as nat),
{
    let width: usize = if cursor > 0 {
        cursor - 1
    } else {
        0
    };
    let mut line = String::new();
    let mut at: usize = 0;
    while at < width
        invariant
            at <= width,
            line@ == Seq::new(at as nat, |k: int| ' '),
        decreases width - at,
    {
        push_char(&mut line, ' ');
        assert(line@ =~= Seq::new((at + 1) as nat, |k: int| ' '));
        at += 1;
    }
    push_char(&mut line, '^');
    line
}

/// The syntax error for an invocation that has none of the accepted shapes.
pub fn syntax_fault(document: &str, tokens: &Vec<TokenInfo>, categories: &Vec<AST>) -> (fault:
    ImportError)
    requires
        categories@ == token_categories(token_views(tokens@)),
    ensures
        fault matches ImportError::SyntaxError { cursor, message } && cursor == fault_cursor(
            token_views(tokens@),
        ) && message@ == syntax_fault_text(document@, cursor as nat),
{
    let place = mismatch_at(categories);
    let cursor: usize = if place < tokens.len() {
        tokens[place].cursor
    } else if tokens.len() > 0 {
        tokens[tokens.len() - 1].cursor
    } else {
        0
    };
    let mut message = String::from_str("Invalid syntax: no grammar rule matches\n");
    message.append(document);
    push_char(&mut message, '\n');
    let line = caret(cursor);
    message.append(line.as_str());
    assert(message@ =~= syntax_fault_text(document@, cursor as nat));
    ImportError::SyntaxError { cursor, message }
}

impl<'a> Scope<'a> {
    /// The directory that the invocation names: the text of its first
    /// token, where that is a string.
    pub fn directory(&self) -> (named: Option<String>)
        ensures
            match named {
                Some(path) => self.identifiers@.len() > 0 && self.identifiers@[0].identifier
                    == Token::String && path@ == content_text(self.identifiers@[0]@),
                None => self.identifiers@.len() == 0 || self.identifiers@[0].identifier
                    != Token::String,
            },
    {
        if self.identifiers.len() > 0 && self.identifiers[0].identifier == Token::String {
            Some(content_of(&self.identifiers[0]))
        } else {
            None
        }
    }
}

/// The cursor that an error carries, where it carries one.
pub open spec fn error_cursor(error: ImportError) -> Option<nat> {
    match error {
        ImportError::SyntaxError { cursor, .. } => Some(cursor as nat),
        ImportError::SemanticError { cursor, .. } => Some(cursor as nat),
        _ => None,
    }
}

/// Validates the tokens of an invocation. Gives the index of the first
/// shape of the table that their categories have, where there is one and
/// the semantic phase finds nothing wrong. Where there is none, fails with
/// a syntax error; where the semantic phase objects, with its error. On
/// failure the scope's cursor is that of the error.
pub fn parser(scope: &mut Scope, directory_exists: bool) -> (parsed: Result<usize, ImportError>)
    ensures
        final(scope).identifiers == old(scope).identifiers,
        final(scope).document == old(scope).document,
        match parsed {
            Ok(index) => matched_rule(
                token_categories(token_views(old(scope).identifiers@)),
            ) == Some(index as int) && semantic_fault(
                index as int,
                token_views(old(scope).identifiers@),
                directory_exists,
                pattern_finding(index as int, token_views(old(scope).identifiers@)),
            ) is None && final(scope).cursor == old(scope).cursor,
            Err(fault) => error_cursor(fault) == Some(final(scope).cursor as nat)
                && match matched_rule(token_categories(token_views(old(scope).identifiers@))) {
                Some(index) => is_semantic_fault(
                    fault,
                    semantic_fault(
                        index,
                        token_views(old(scope).identifiers@),
                        directory_exists,
                        pattern_finding(index, token_views(old(scope).identifiers@)),
                    ),
                ),
                None => fault matches ImportError::SyntaxError { cursor, message } && cursor
                    == fault_cursor(token_views(old(scope).identifiers@)) && message@
                    == syntax_fault_text(old(scope).document@, cursor as nat),
            },
        },
{
    let data = categorize(&scope.identifiers);
    match match_rule(&data) {
        Some(index) => {
            assert(data@.len() == scope.identifiers@.len());
            match fase_two(index, &scope.identifiers, directory_exists) {
                Ok(_) => Ok(index),
                Err(fault) => {
                    match &fault {
                        ImportError::SemanticError { cursor, .. } => {
                            scope.cursor = *cursor;
                        },
                        _ => {},
                    }
                    Err(fault)
                },
            }
        },
        None => {
            let fault = syntax_fault(scope.document, &scope.identifiers, &data);
            match &fault {
                ImportError::SyntaxError { cursor, .. } => {
                    scope.cursor = *cursor;
                },
                _ => {},
            }
            Err(fault)
        },
    }
}

/// The table has six rows, no two alike.
pub proof fn lemma_rules_distinct(first: int, second: int)
    requires
        0 <= first < rule_count(),
        0 <= second < rule_count(),
        first != second,
    ensures
        grammar_rule(first) != grammar_rule(second),
{
    let a = grammar_rule(first);
    let b = grammar_rule(second);
    if a.len() == b.len() {
        if a.len() == 6 {
            assert(a[5] != b[5]);
        } else {
            assert(a.len() == 4);
            assert(a[3] != b[3]);
        }
    }
}

/// The validator accepts exactly the rows of the table: categories are
/// matched if and only if they are one of the six rows, and then the index
/// given is that of the row. Categories that differ from every row, in
/// length or at some place, are not matched.
pub proof fn lemma_accepts_exactly_the_table(categories: Seq<AST>)
    ensures
        matched_rule(categories) is Some <==> exists|index: int|
            0 <= index < rule_count() && categories == #[trigger] grammar_rule(index),
        forall|index: int|
            0 <= index < rule_count() && categories == #[trigger] grammar_rule(index)
                ==> matched_rule(categories) == Some(index),
        (forall|index: int|
            0 <= index < rule_count() ==> categories.len() != (#[trigger] grammar_rule(
                index,
            )).len() || exists|place: int|
                0 <= place < categories.len() && categories[place] != grammar_rule(index)[place])
            ==> matched_rule(categories) is None,
{
    assert forall|index: int|
        0 <= index < rule_count() && categories == #[trigger] grammar_rule(
            index,
        ) implies matched_rule(categories) == Some(index) by {
        assert(accepts(index, categories));
        let found = matched_rule(categories)->0;
        if found != index {
            lemma_rules_distinct(found, index);
        }
    }
    if matched_rule(categories) is Some {
        let found = matched_rule(categories)->0;
        assert(categories == grammar_rule(found));
    }
}

/// No row of the table holds the category of an unknown word.
pub proof fn lemma_no_match_is_rejected(categories: Seq<AST>, place: int)
    requires
        0 <= place < categories.len(),
        categories[place] == AST::NoMatch,
    ensures
        matched_rule(categories) is None,
{
    if matched_rule(categories) is Some {
        let found = matched_rule(categories)->0;
        assert(grammar_rule(found)[place] != AST::NoMatch);
    }
}

} // verus!
