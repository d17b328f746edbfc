use std::str::Chars;
use vstd::prelude::*;
use vstd::std_specs::iter::IteratorSpec;
use vstd::string::next_postcondition;
use crate::models::token::{Token, TokenInfo, TokenView, copy_tokens, token_views};
use crate::text::push_char;

verus! {

/// The state of one tokenizing run: the tokens completed so far, the
/// characters not yet read, and the count of reads made so far.
pub struct Scope<'a> {
    pub identifiers: Vec<TokenInfo>,
    pub chars: Chars<'a>,
    pub cursor: usize,
}

impl<'a> Scope<'a> {
    /// Reads one character. The cursor counts every read, also the one that
    /// finds the text exhausted.
    pub fn next(&mut self) -> (read: Option<char>)
        requires
            old(self).cursor < usize::MAX,
        ensures
            final(self).cursor == old(self).cursor + 1,
            final(self).identifiers == old(self).identifiers,
            old(self).chars.remaining().len() > 0 ==> read == Some(old(self).chars.remaining()[0])
                && final(self).chars.remaining() == old(self).chars.remaining().drop_first(),
            old(self).chars.remaining().len() == 0 ==> read is None && final(self).chars.remaining().len() == 0,
    {
        broadcast use next_postcondition;

        self.cursor += 1;
        self.chars.next()
    }

    /// A run over `chars` that has read nothing yet.
    pub fn new(chars: Chars<'a>) -> (scope: Scope<'a>)
        ensures
            scope.identifiers@.len() == 0,
            scope.chars == chars,
            scope.cursor == 0,
    {
        Scope { identifiers: Vec::new(), chars, cursor: 0 }
    }
}

/// A separator between tokens: a character with the Unicode property
/// White_Space.
pub open spec fn is_blank(c: char) -> bool {
    ('\u{9}' <= c && c <= '\u{D}') || c == ' ' || c == '\u{85}' || c == '\u{A0}' || c
        == '\u{1680}' || ('\u{2000}' <= c && c <= '\u{200A}') || c == '\u{2028}' || c
        == '\u{2029}' || c == '\u{202F}' || c == '\u{205F}' || c == '\u{3000}'
}

/// An ASCII letter: the first character of an identifier.
pub open spec fn is_letter(c: char) -> bool {
    ('a' <= c && c <= 'z') || ('A' <= c && c <= 'Z')
}

/// The number of characters at the front of `s` before the first separator.
pub open spec fn word_span(s: Seq<char>) -> nat
    decreases s.len(),
{
    if s.len() == 0 || is_blank(s[0]) {
        0
    } else {
        1 + word_span(s.drop_first())
    }
}

/// The number of characters at the front of `s` that lie inside a string
/// literal whose opening quote has just been read: those before the first
/// quote that no backslash escapes. `escaped` tells whether the character
/// before `s` was an escaping backslash.
pub open spec fn string_span(s: Seq<char>, escaped: bool) -> nat
    decreases s.len(),
{
    if s.len() == 0 {
        0
    } else if !escaped && s[0] == '"' {
        0
    } else if !escaped && s[0] == '\\' {
        1 + string_span(s.drop_first(), true)
    } else {
        1 + string_span(s.drop_first(), false)
    }
}

/// The text of the string literal at the front of `s`: its characters
/// without the escaping backslashes.
pub open spec fn string_text(s: Seq<char>, escaped: bool) -> Seq<char>
    decreases s.len(),
{
    if s.len() == 0 {
        Seq::<char>::empty()
    } else if !escaped && s[0] == '"' {
        Seq::<char>::empty()
    } else if !escaped && s[0] == '\\' {
        string_text(s.drop_first(), true)
    } else {
        seq![s[0]] + string_text(s.drop_first(), false)
    }
}

/// What is left of `s` after a token that spans its first `n` characters and
/// the one character that ends it, where there is one.
pub open spec fn after_token(s: Seq<char>, n: nat) -> Seq<char> {
    if n < s.len() {
        s.skip(n + 1 as int)
    } else {
        Seq::<char>::empty()
    }
}

/// The cursor of a token that spans the first `n` characters of `s` after
/// its own first character, which was read with the cursor at `cursor`: the
/// count of the characters consumed when the token is complete, the one that
/// ends it included where there is one.
pub open spec fn token_cursor(s: Seq<char>, cursor: nat, n: nat) -> nat {
    if n < s.len() {
        cursor + n + 2
    } else {
        cursor + n + 1
    }
}

/// The tokens of the text `s`, read after `cursor` characters, and the
/// number of reads made when the last character is consumed.
///
/// Separators are dropped. A letter starts an identifier that runs up to the
/// next separator; a quote starts a string literal that runs up to the next
/// quote that is not escaped; any other character is a token of its own. The
/// cursor of a token is the count of the characters consumed when it is
/// complete. A read is made for each character, and one more where the text
/// ends inside an identifier or a string.
pub open spec fn lex_run(s: Seq<char>, cursor: nat) -> (Seq<TokenView>, nat)
    decreases s.len(),
{
    if s.len() == 0 {
        (Seq::<TokenView>::empty(), cursor)
    } else {
        let head = s[0];
        let rest = s.drop_first();
        if is_blank(head) {
            lex_run(rest, cursor + 1)
        } else if is_letter(head) {
            let n = word_span(rest);
            let token = TokenView {
                identifier: Token::Identifier,
                content: Some(s.subrange(0, n + 1 as int)),
                cursor: token_cursor(rest, cursor, n),
            };
            let tail = lex_run(after_token(rest, n), cursor + n + 2);
            (seq![token] + tail.0, tail.1)
        } else if head == '"' {
            let n = string_span(rest, false);
            let token = TokenView {
                identifier: Token::String,
                content: Some(string_text(rest, false)),
                cursor: token_cursor(rest, cursor, n),
            };
            let tail = lex_run(after_token(rest, n), cursor + n + 2);
            (seq![token] + tail.0, tail.1)
        } else {
            let token = TokenView {
                identifier: Token::Unknown,
                content: Some(seq![head]),
                cursor: cursor + 1,
            };
            let tail = lex_run(rest, cursor + 1);
            (seq![token] + tail.0, tail.1)
        }
    }
}

/// The tokens of a text, read from its start.
pub open spec fn lex(s: Seq<char>) -> Seq<TokenView> {
    lex_run(s, 0).0
}

fn blank(c: char) -> (yes: bool)
    ensures
        yes == is_blank(c),
{
    ('\u{9}' <= c && c <= '\u{D}') || c == ' ' || c == '\u{85}' || c == '\u{A0}' || c
        == '\u{1680}' || ('\u{2000}' <= c && c <= '\u{200A}') || c == '\u{2028}' || c
        == '\u{2029}' || c == '\u{202F}' || c == '\u{205F}' || c == '\u{3000}'
}

fn letter(c: char) -> (yes: bool)
    ensures
        yes == is_letter(c),
{
    ('a' <= c && c <= 'z') || ('A' <= c && c <= 'Z')
}

/// Reads the rest of an identifier whose first character, `first`, has been
/// read, and the separator that ends it. Gives the identifier, and whether
/// a separator ended it.
fn read_word(scope: &mut Scope, first: char) -> (read: (String, bool))
    requires
        old(scope).cursor + old(scope).chars.remaining().len() < usize::MAX,
    ensures
        read.0@ == seq![first] + old(scope).chars.remaining().subrange(
            0,
            word_span(old(scope).chars.remaining()) as int,
        ),
        read.1 == (word_span(old(scope).chars.remaining()) < old(
            scope,
        ).chars.remaining().len()),
        final(scope).chars.remaining() == after_token(
            old(scope).chars.remaining(),
            word_span(old(scope).chars.remaining()),
        ),
        final(scope).cursor == old(scope).cursor + word_span(old(scope).chars.remaining()) + 1,
        final(scope).identifiers == old(scope).identifiers,
{
    let ghost start = scope.chars.remaining();
    let ghost base = scope.cursor;
    let ghost tokens = scope.identifiers;
    let ghost mut k: nat = 0;
    let mut word = String::new();
    let mut closed = false;
    push_char(&mut word, first);
    assert(word@ =~= seq![first] + start.subrange(0, 0));
    assert(start.skip(0) =~= start);
    loop
        invariant_except_break
            k <= start.len(),
            scope.chars.remaining() == start.skip(k as int),
            word@ == seq![first] + start.subrange(0, k as int),
            word_span(start) == k + word_span(start.skip(k as int)),
            scope.cursor == base + k,
            !closed,
        invariant
            base + start.len() < usize::MAX,
            scope.identifiers == tokens,
        ensures
            closed == (word_span(start) < start.len()),
            word@ == seq![first] + start.subrange(0, word_span(start) as int),
            scope.chars.remaining() == after_token(start, word_span(start)),
            scope.cursor == base + word_span(start) + 1,
        decreases usize::MAX - scope.cursor,
    {
        let read = scope.next();
        match read {
            None => {
                break ;
            },
            Some(c) => {
                if blank(c) {
                    assert(start.skip(k as int).drop_first() =~= start.skip(k + 1 as int));
                    closed = true;
                    break ;
                }
                push_char(&mut word, c);
                proof {
                    assert(start.skip(k as int).drop_first() =~= start.skip(k + 1 as int));
                    assert(start.subrange(0, k as int).push(c) =~= start.subrange(
                        0,
                        k + 1 as int,
                    ));
                    assert(word@ =~= seq![first] + start.subrange(0, k + 1 as int));
                    k = k + 1;
                }
            },
        }
    }
    (word, closed)
}

/// Reads the rest of a string literal whose opening quote has been read, and
/// the quote that closes it. Gives the literal's text, and whether a quote
/// closed it.
fn read_string(scope: &mut Scope) -> (read: (String, bool))
    requires
        old(scope).cursor + old(scope).chars.remaining().len() < usize::MAX,
    ensures
        read.0@ == string_text(old(scope).chars.remaining(), false),
        read.1 == (string_span(old(scope).chars.remaining(), false) < old(
            scope,
        ).chars.remaining().len()),
        final(scope).chars.remaining() == after_token(
            old(scope).chars.remaining(),
            string_span(old(scope).chars.remaining(), false),
        ),
        final(scope).cursor == old(scope).cursor + string_span(
            old(scope).chars.remaining(),
            false,
        ) + 1,
        final(scope).identifiers == old(scope).identifiers,
{
    let ghost start = scope.chars.remaining();
    let ghost base = scope.cursor;
    let ghost tokens = scope.identifiers;
    let ghost mut k: nat = 0;
    let mut text = String::new();
    let mut escape = false;
    let mut closed = false;
    assert(start.skip(0) =~= start);
    assert(text@ + string_text(start, false) =~= string_text(start, false));
    loop
        invariant_except_break
            k <= start.len(),
            scope.chars.remaining() == start.skip(k as int),
            string_span(start, false) == k + string_span(start.skip(k as int), escape),
            string_text(start, false) == text@ + string_text(start.skip(k as int), escape),
            scope.cursor == base + k,
            !closed,
        invariant
            base + start.len() < usize::MAX,
            scope.identifiers == tokens,
        ensures
            closed == (string_span(start, false) < start.len()),
            text@ == string_text(start, false),
            scope.chars.remaining() == after_token(start, string_span(start, false)),
            scope.cursor == base + string_span(start, false) + 1,
        decreases usize::MAX - scope.cursor,
    {
        let ghost here = start.skip(k as int);
        let read = scope.next();
        match read {
            None => {
                assert(text@ + Seq::<char>::empty() =~= text@);
                break ;
            },
            Some(c) => {
                assert(here.drop_first() =~= start.skip(k + 1 as int));
                if !escape && c == '\\' {
                    escape = true;
                } else if !escape && c == '"' {
                    assert(text@ + Seq::<char>::empty() =~= text@);
                    closed = true;
                    break ;
                } else {
                    let ghost before = text@;
                    push_char(&mut text, c);
                    escape = false;
                    assert(before + (seq![c] + string_text(here.drop_first(), false))
                        =~= before.push(c) + string_text(here.drop_first(), false));
                }
                proof {
                    k = k + 1;
                }
            },
        }
    }
    (text, closed)
}

proof fn lemma_word_span_bound(s: Seq<char>)
    ensures
        word_span(s) <= s.len(),
    decreases s.len(),
{
    if s.len() > 0 && !is_blank(s[0]) {
        lemma_word_span_bound(s.drop_first());
    }
}

proof fn lemma_string_span_bound(s: Seq<char>, escaped: bool)
    ensures
        string_span(s, escaped) <= s.len(),
    decreases s.len(),
{
    if s.len() > 0 {
        lemma_string_span_bound(s.drop_first(), true);
        lemma_string_span_bound(s.drop_first(), false);
    }
}

/// Reads the text of `scope` to its end and appends its tokens to
/// `scope.identifiers`; returns a copy of that list.
pub fn lexer(scope: &mut Scope) -> (tokens: Vec<TokenInfo>)
    requires
        old(scope).cursor + old(scope).chars.remaining().len() + 2 <= usize::MAX,
    ensures
        token_views(final(scope).identifiers@) == token_views(old(scope).identifiers@) + lex_run(
            old(scope).chars.remaining(),
            old(scope).cursor as nat,
        ).0,
        token_views(tokens@) == token_views(final(scope).identifiers@),
        final(scope).cursor == lex_run(
            old(scope).chars.remaining(),
            old(scope).cursor as nat,
        ).1 + 1,
        final(scope).chars.remaining().len() == 0,
        forall|k: int|
            old(scope).identifiers@.len() <= k < final(scope).identifiers@.len() ==> old(
                scope,
            ).cursor < (#[trigger] final(scope).identifiers@[k]).cursor <= old(scope).cursor + old(
                scope,
            ).chars.remaining().len(),
{
    let ghost whole = lex_run(scope.chars.remaining(), scope.cursor as nat);
    let ghost given = token_views(scope.identifiers@);
    let ghost text = scope.chars.remaining();
    let ghost start = scope.cursor as nat;
    let ghost before = scope.identifiers@.len();
    assert(given.len() == before);
    loop
        invariant_except_break
            token_views(scope.identifiers@) + lex_run(
                scope.chars.remaining(),
                scope.cursor as nat,
            ).0 == given + whole.0,
            lex_run(scope.chars.remaining(), scope.cursor as nat).1 == whole.1,
            scope.chars.remaining().len() > 0 ==> scope.cursor + scope.chars.remaining().len() + 2
                <= usize::MAX,
            scope.cursor < usize::MAX,
        ensures
            token_views(scope.identifiers@) == given + whole.0,
            scope.cursor == whole.1 + 1,
            scope.chars.remaining().len() == 0,
        decreases usize::MAX - scope.cursor,
    {
        let ghost s = scope.chars.remaining();
        let ghost at = scope.cursor as nat;
        let ghost done = token_views(scope.identifiers@);
        let read = scope.next();
        match read {
            None => {
                assert(done + Seq::<TokenView>::empty() =~= done);
                break ;
            },
            Some(c) => {
                let ghost rest = s.drop_first();
                if blank(c) {
                } else if letter(c) {
                    proof {
                        lemma_word_span_bound(rest);
                    }
                    let (word, closed) = read_word(scope, c);
                    let cursor: usize = if closed {
                        scope.cursor
                    } else {
                        scope.cursor - 1
                    };
                    let token = TokenInfo::new(Token::Identifier, Some(word), cursor);
                    proof {
                        let n = word_span(rest);
                        assert(s.subrange(0, n + 1 as int) =~= seq![c] + rest.subrange(
                            0,
                            n as int,
                        ));
                        let tail = lex_run(after_token(rest, n), at + n + 2);
                        assert(done.push(token@) + tail.0 =~= done + (seq![token@] + tail.0));
                    }
                    scope.identifiers.push(token);
                    assert(token_views(scope.identifiers@) =~= done.push(token@));
                } else if c == '"' {
                    proof {
                        lemma_string_span_bound(rest, false);
                    }
                    let (text, closed) = read_string(scope);
                    let cursor: usize = if closed {
                        scope.cursor
                    } else {
                        scope.cursor - 1
                    };
                    let token = TokenInfo::new(Token::String, Some(text), cursor);
                    proof {
                        let n = string_span(rest, false);
                        let tail = lex_run(after_token(rest, n), at + n + 2);
                        assert(done.push(token@) + tail.0 =~= done + (seq![token@] + tail.0));
                    }
                    scope.identifiers.push(token);
                    assert(token_views(scope.identifiers@) =~= done.push(token@));
                } else {
                    let mut text = String::new();
                    push_char(&mut text, c);
                    let token = TokenInfo::new(Token::Unknown, Some(text), scope.cursor);
                    proof {
                        assert(text@ =~= seq![c]);
                        let tail = lex_run(rest, at + 1);
                        assert(done.push(token@) + tail.0 =~= done + (seq![token@] + tail.0));
                    }
                    scope.identifiers.push(token);
                    assert(token_views(scope.identifiers@) =~= done.push(token@));
                }
            },
        }
    }
    proof {
        lemma_lex_tokens(text, start);
        let all = token_views(scope.identifiers@);
        assert forall|k: int| before <= k < scope.identifiers@.len() implies start < (
        #[trigger] scope.identifiers@[k]).cursor <= start + text.len() by {
            assert(all[k] == scope.identifiers@[k]@);
            assert(all[k] == whole.0[k - before]);
            assert(sound_token(whole.0[k - before], start, start + text.len()));
        }
    }
    copy_tokens(&scope.identifiers)
}

proof fn lemma_word_has_no_blank(s: Seq<char>, k: int)
    requires
        0 <= k < word_span(s),
    ensures
        k < s.len(),
        !is_blank(s[k]),
    decreases s.len(),
{
    if k > 0 {
        lemma_word_has_no_blank(s.drop_first(), k - 1);
    }
}

/// What holds of a token that was read with the cursor between `low` and
/// `high`: its cursor lies above `low` and not above `high`; it holds a
/// text; an identifier begins with a letter and holds no separator; an
/// unknown token is one character that is neither a separator, a letter nor
/// a quote; and no token read has the class `End`.
pub open spec fn sound_token(token: TokenView, low: nat, high: nat) -> bool {
    &&& low < token.cursor <= high
    &&& token.content matches Some(text)
    &&& match token.identifier {
        Token::Identifier => text.len() > 0 && is_letter(text[0]) && forall|k: int|
            0 <= k < text.len() ==> !is_blank(#[trigger] text[k]),
        Token::String => true,
        Token::Unknown => text.len() == 1 && !is_blank(text[0]) && !is_letter(text[0]) && text[0]
            != '"',
        Token::End => false,
    }
}

/// Of the tokens of any text this holds: each token is sound, with a cursor
/// that is at most the number of characters consumed by the end of the text;
/// the cursors grow from token to token; at most one read is made beyond the
/// characters; and there are no more tokens than characters.
pub proof fn lemma_lex_tokens(s: Seq<char>, cursor: nat)
    ensures
        forall|k: int|
            0 <= k < lex_run(s, cursor).0.len() ==> sound_token(
                #[trigger] lex_run(s, cursor).0[k],
                cursor,
                cursor + s.len(),
            ),
        forall|i: int, j: int|
            0 <= i < j < lex_run(s, cursor).0.len() ==> (#[trigger] lex_run(s, cursor).0[i]).cursor
                < (#[trigger] lex_run(s, cursor).0[j]).cursor,
        cursor <= lex_run(s, cursor).1 <= cursor + s.len() + 1,
        lex_run(s, cursor).0.len() <= s.len(),
    decreases s.len(),
{
    if s.len() > 0 {
        let head = s[0];
        let rest = s.drop_first();
        let all = lex_run(s, cursor).0;
        let high = cursor + s.len();
        if is_blank(head) {
            lemma_lex_tokens(rest, cursor + 1);
        } else if is_letter(head) || head == '"' {
            let n = if is_letter(head) {
                word_span(rest)
            } else {
                string_span(rest, false)
            };
            lemma_word_span_bound(rest);
            lemma_string_span_bound(rest, false);
            let stop = cursor + n + 2;
            let left = after_token(rest, n);
            assert(all[0].cursor == token_cursor(rest, cursor, n));
            let tail = lex_run(left, stop).0;
            lemma_lex_tokens(left, stop);
            if n < rest.len() {
                assert(stop + left.len() <= high);
            } else {
                assert(tail.len() == 0);
            }
            let first = all[0];
            if is_letter(head) {
                let text = s.subrange(0, n + 1 as int);
                assert forall|k: int| 0 <= k < text.len() implies !is_blank(
                    #[trigger] text[k],
                ) by {
                    if k > 0 {
                        lemma_word_has_no_blank(rest, k - 1);
                        assert(text[k] == rest[k - 1]);
                    }
                }
            }
            assert(sound_token(first, cursor, high));
            assert forall|k: int| 0 <= k < all.len() implies sound_token(
                #[trigger] all[k],
                cursor,
                high,
            ) by {
                if k > 0 {
                    assert(all[k] == tail[k - 1]);
                    assert(sound_token(tail[k - 1], stop, stop + left.len()));
                }
            }
            assert forall|i: int, j: int| 0 <= i < j < all.len() implies (#[trigger] all[i]).cursor
                < (#[trigger] all[j]).cursor by {
                assert(all[j] == tail[j - 1]);
                assert(sound_token(tail[j - 1], stop, stop + left.len()));
                if i > 0 {
                    assert(all[i] == tail[i - 1]);
                }
            }
        } else {
            let tail = lex_run(rest, cursor + 1).0;
            lemma_lex_tokens(rest, cursor + 1);
            assert forall|k: int| 0 <= k < all.len() implies sound_token(
                #[trigger] all[k],
                cursor,
                high,
            ) by {
                if k > 0 {
                    assert(all[k] == tail[k - 1]);
                    assert(sound_token(tail[k - 1], cursor + 1, cursor + 1 + rest.len()));
                }
            }
            assert forall|i: int, j: int| 0 <= i < j < all.len() implies (#[trigger] all[i]).cursor
                < (#[trigger] all[j]).cursor by {
                assert(all[j] == tail[j - 1]);
                assert(sound_token(tail[j - 1], cursor + 1, cursor + 1 + rest.len()));
                if i > 0 {
                    assert(all[i] == tail[i - 1]);
                }
            }
        }
    }
}

} // verus!
