use vstd::prelude::*;
use vstd::std_specs::iter::IteratorSpec;
use vstd::string::{axiom_spec_iter, next_postcondition};

verus! {

/// The characters of a text, in order.
pub fn chars_of(text: &str) -> (chars: Vec<char>)
    ensures
        chars@ == text@,
{
    broadcast use {axiom_spec_iter, next_postcondition};

    let count: usize = text.unicode_len();
    let mut rest = text.chars();
    let mut chars: Vec<char> = Vec::new();
    loop
        invariant
            chars@ + rest.remaining() == text@,
            count == text@.len(),
        ensures
            chars@ == text@,
        decreases count - chars.len(),
    {
        let ghost before = rest.remaining();
        match rest.next() {
            None => {
                assert(chars@ + Seq::<char>::empty() =~= chars@);
                break ;
            },
            Some(c) => {
                assert(chars@.push(c) + before.drop_first() =~= chars@ + before);
                chars.push(c);
            },
        }
    }
    chars
}

/// Whether two texts hold the same characters in the same order.
pub fn same_text(left: &str, right: &str) -> (same: bool)
    ensures
        same == (left@ == right@),
{
    let one = chars_of(left);
    let two = chars_of(right);
    if one.len() != two.len() {
        return false;
    }
    let mut at: usize = 0;
    while at < one.len()
        invariant
            at <= one.len(),
            one.len() == two.len(),
            one@ == left@,
            two@ == right@,
            forall|k: int| 0 <= k < at ==> one@[k] == two@[k],
        decreases one.len() - at,
    {
        if one[at] != two[at] {
            return false;
        }
        at += 1;
    }
    assert(one@ =~= two@);
    true
}

/// The text made of the given characters, in order.
pub fn text_of(chars: &Vec<char>) -> (text: String)
    ensures
        text@ == chars@,
{
    let mut text = String::new();
    let mut at: usize = 0;
    while at < chars.len()
        invariant
            at <= chars.len(),
            text@ == chars@.subrange(0, at as int),
        decreases chars.len() - at,
    {
        push_char(&mut text, chars[at]);
        assert(chars@.subrange(0, at as int).push(chars@[at as int]) =~= chars@.subrange(
            0,
            at + 1 as int,
        ));
        at += 1;
    }
    assert(chars@.subrange(0, at as int) =~= chars@);
    text
}

/// The decimal digit of a number below ten.
pub open spec fn digit(d: nat) -> char {
    if d == 0 {
        '0'
    } else if d == 1 {
        '1'
    } else if d == 2 {
        '2'
    } else if d == 3 {
        '3'
    } else if d == 4 {
        '4'
    } else if d == 5 {
        '5'
    } else if d == 6 {
        '6'
    } else if d == 7 {
        '7'
    } else if d == 8 {
        '8'
    } else {
        '9'
    }
}

/// A number written in decimal, without leading zeros.
pub open spec fn decimal_text(n: nat) -> Seq<char>
    decreases n,
{
    if n < 10 {
        seq![digit(n)]
    } else {
        decimal_text(n / 10).push(digit(n % 10))
    }
}

fn digit_of(d: usize) -> (c: char)
    requires
        d < 10,
    ensures
        c == digit(d as nat),
{
    if d == 0 {
        '0'
    } else if d == 1 {
        '1'
    } else if d == 2 {
        '2'
    } else if d == 3 {
        '3'
    } else if d == 4 {
        '4'
    } else if d == 5 {
        '5'
    } else if d == 6 {
        '6'
    } else if d == 7 {
        '7'
    } else if d == 8 {
        '8'
    } else {
        '9'
    }
}

/// Writes a number in decimal.
pub fn decimal(n: usize) -> (text: String)
    ensures
        text@ == decimal_text(n as nat),
    decreases n,
{
    if n < 10 {
        let mut text = String::new();
        push_char(&mut text, digit_of(n));
        text
    } else {
        let mut text = decimal(n / 10);
        push_char(&mut text, digit_of(n % 10));
        text
    }
}

/// `String::push` of std: the text gains the one character at its end and
/// is otherwise unchanged.
#[verifier::external_body]
pub(crate) fn push_char(text: &mut String, c: char)
    ensures
        final(text)@ == old(text)@.push(c),
{
    text.push(c);
}

} // verus!
