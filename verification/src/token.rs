//! The tokenizer: source text to command tokens, everything else being comment.

use vstd::prelude::*;

verus! {

/// One of the eight commands of the language.
#[allow(non_camel_case_types)]
#[derive(Debug, Clone, Copy, PartialEq, Eq, Structural)]
pub enum Token {
    T_GT,
    T_LT,
    T_PLUS,
    T_MINUS,
    T_DOT,
    T_COMMA,
    T_LBRACKET,
    T_RBRACKET,
}

/// The token that a character stands for, if it is one of the eight command symbols.
pub open spec fn token_for(c: char) -> Option<Token> {
    if c == '>' {
        Some(Token::T_GT)
    } else if c == '<' {
        Some(Token::T_LT)
    } else if c == '+' {
        Some(Token::T_PLUS)
    } else if c == '-' {
        Some(Token::T_MINUS)
    } else if c == '.' {
        Some(Token::T_DOT)
    } else if c == ',' {
        Some(Token::T_COMMA)
    } else if c == '[' {
        Some(Token::T_LBRACKET)
    } else if c == ']' {
        Some(Token::T_RBRACKET)
    } else {
        None
    }
}

/// The character that a token is written as.
pub open spec fn symbol_of(t: Token) -> char {
    match t {
        Token::T_GT => '>',
        Token::T_LT => '<',
        Token::T_PLUS => '+',
        Token::T_MINUS => '-',
        Token::T_DOT => '.',
        Token::T_COMMA => ',',
        Token::T_LBRACKET => '[',
        Token::T_RBRACKET => ']',
    }
}

/// Whether a character is a command symbol rather than comment text.
pub open spec fn is_command(c: char) -> bool {
    token_for(c) is Some
}

/// The command symbols of a text, in order, with all comment characters removed.
pub open spec fn commands_of(source: Seq<char>) -> Seq<char> {
    source.filter(|c: char| is_command(c))
}

/// The tokens of a text: one for each command symbol, in the order of the text.
pub open spec fn tokens_of(source: Seq<char>) -> Seq<Token> {
    commands_of(source).map_values(|c: char| token_for(c).unwrap())
}

/// Appending one character appends its token, if it has one, and nothing otherwise.
pub proof fn lemma_tokens_of_push(source: Seq<char>, c: char)
    ensures
        tokens_of(source.push(c)) == match token_for(c) {
            Some(t) => tokens_of(source).push(t),
            None => tokens_of(source),
        },
{
    reveal(Seq::filter);
    assert(source.push(c).drop_last() =~= source);
    match token_for(c) {
        Some(t) => {
            assert(tokens_of(source.push(c)) =~= tokens_of(source).push(t));
        },
        None => {},
    }
}

/// Written out again, the tokens of a text are the text without its comments:
/// no character outside the eight command symbols is left in them, and no
/// command symbol is lost or moved.
pub proof fn lemma_tokens_spell_commands(source: Seq<char>)
    ensures
        tokens_of(source).map_values(|t: Token| symbol_of(t)) == commands_of(source),
        forall|i: int|
            0 <= i < commands_of(source).len() ==> is_command(#[trigger] commands_of(source)[i]),
{
    let commands = commands_of(source);
    assert forall|i: int| 0 <= i < commands.len() implies is_command(#[trigger] commands[i]) by {
        source.lemma_filter_pred(|c: char| is_command(c), i);
    }
    assert(tokens_of(source).map_values(|t: Token| symbol_of(t)) =~= commands);
}

/// A comment character, wherever it stands, makes no difference to the tokens.
pub proof fn lemma_comment_is_dropped(before: Seq<char>, c: char, after: Seq<char>)
    requires
        !is_command(c),
    ensures
        tokens_of(before.push(c) + after) == tokens_of(before + after),
{
    let pred = |x: char| is_command(x);
    lemma_tokens_of_push(before, c);
    Seq::filter_distributes_over_add(before.push(c), after, pred);
    Seq::filter_distributes_over_add(before, after, pred);
    reveal(Seq::filter);
    assert(before.push(c).drop_last() =~= before);
}

/// The tokens of a text in two parts are the tokens of the first part followed
/// by those of the second.
pub proof fn lemma_tokens_of_concat(first: Seq<char>, second: Seq<char>)
    ensures
        tokens_of(first + second) == tokens_of(first) + tokens_of(second),
{
    Seq::filter_distributes_over_add(first, second, |c: char| is_command(c));
    assert(tokens_of(first + second) =~= tokens_of(first) + tokens_of(second));
}

/// Splits a source text into its tokens.
pub fn parse(code: &str) -> (tokens: Vec<Token>)
    ensures
        tokens@ == tokens_of(code@),
{
    let mut tokens: Vec<Token> = Vec::new();
    proof {
        reveal(Seq::filter);
        assert(tokens@ =~= tokens_of(code@.take(0)));
    }
    for c in it: code.chars()
        invariant
            it.seq() == code@,
            tokens@ == tokens_of(code@.take(it.index() as int)),
    {
        proof {
            lemma_tokens_of_push(code@.take(it.index() as int), c);
            assert(code@.take(it.index() + 1) =~= code@.take(it.index() as int).push(c));
        }
        match c {
            '>' => tokens.push(Token::T_GT),
            '<' => tokens.push(Token::T_LT),
            '+' => tokens.push(Token::T_PLUS),
            '-' => tokens.push(Token::T_MINUS),
            '.' => tokens.push(Token::T_DOT),
            ',' => tokens.push(Token::T_COMMA),
            '[' => tokens.push(Token::T_LBRACKET),
            ']' => tokens.push(Token::T_RBRACKET),
            _ => {},
        }
    }
    assert(code@.take(code@.len() as int) =~= code@);
    tokens
}

} // verus!
