//! Tokens and lexer of the lambda calculus with booleans and naturals.
use vstd::prelude::*;

use crate::scan::{
    chars_of, digits_value, find_word, in_bounds, lemma_scan_in_bounds, lexemes, lookup,
    number_value, scan, table_view, word_string, Lexeme,
};

verus! {

/// A token of the lambda calculus with booleans and naturals.
#[derive(Debug, PartialEq)]
pub enum Token {
    Lambda,
    Var(String),
    Number(u64),
    True,
    False,
    Zero,
    IsZero,
    Succ,
    Pred,
    If,
    Then,
    Else,
    Sub,
    Mult,
    Plus,
    Dot,
    LParen,
    RParen,
}

impl Clone for Token {
    fn clone(&self) -> (r: Self)
        ensures
            r == *self,
    {
        match self {
            Token::Lambda => Token::Lambda,
            Token::Var(s) => Token::Var(s.clone()),
            Token::Number(n) => Token::Number(*n),
            Token::True => Token::True,
            Token::False => Token::False,
            Token::Zero => Token::Zero,
            Token::IsZero => Token::IsZero,
            Token::Succ => Token::Succ,
            Token::Pred => Token::Pred,
            Token::If => Token::If,
            Token::Then => Token::Then,
            Token::Else => Token::Else,
            Token::Sub => Token::Sub,
            Token::Mult => Token::Mult,
            Token::Plus => Token::Plus,
            Token::Dot => Token::Dot,
            Token::LParen => Token::LParen,
            Token::RParen => Token::RParen,
        }
    }
}

/// The reserved words and their tokens.
pub open spec fn keyword_table() -> Seq<(Seq<char>, Token)> {
    seq![
        ("if"@, Token::If),
        ("else"@, Token::Else),
        ("zero"@, Token::Zero),
        ("iszero"@, Token::IsZero),
        ("true"@, Token::True),
        ("false"@, Token::False),
        ("succ"@, Token::Succ),
        ("pred"@, Token::Pred),
        ("then"@, Token::Then),
    ]
}

/// The reserved words and their tokens.
pub fn get_keywords() -> (r: Vec<(String, Token)>)
    ensures
        table_view(r@) == keyword_table(),
{
    let mut result: Vec<(String, Token)> = Vec::new();
    result.push(("if".to_owned(), Token::If));
    result.push(("else".to_owned(), Token::Else));
    result.push(("zero".to_owned(), Token::Zero));
    result.push(("iszero".to_owned(), Token::IsZero));
    result.push(("true".to_owned(), Token::True));
    result.push(("false".to_owned(), Token::False));
    result.push(("succ".to_owned(), Token::Succ));
    result.push(("pred".to_owned(), Token::Pred));
    result.push(("then".to_owned(), Token::Then));
    assert(table_view(result@) =~= keyword_table());
    result
}

/// The token a punctuation character stands for.
pub open spec fn symbol_token(c: char) -> Option<Token> {
    if c == 'λ' {
        Some(Token::Lambda)
    } else if c == '.' {
        Some(Token::Dot)
    } else if c == '(' {
        Some(Token::LParen)
    } else if c == ')' {
        Some(Token::RParen)
    } else if c == '*' {
        Some(Token::Mult)
    } else if c == '+' {
        Some(Token::Plus)
    } else if c == '-' {
        Some(Token::Sub)
    } else {
        None
    }
}

/// The lexeme `l` of `cs` has a token: every word does, a number only if it fits
/// in a `u64`.
pub open spec fn lexeme_ok(cs: Seq<char>, l: Lexeme) -> bool {
    match l {
        Lexeme::Word(_, _) => true,
        Lexeme::Digits(a, b) => digits_value(cs.subrange(a as int, b as int)) <= u64::MAX,
        Lexeme::Symbol(p) => symbol_token(cs[p as int]) is Some,
    }
}

/// `t` is the token for the lexeme `l` of `cs`: a reserved word, else a variable;
/// a number; or a punctuation character.
pub open spec fn token_of(cs: Seq<char>, l: Lexeme, t: Token) -> bool {
    match l {
        Lexeme::Word(a, b) => match lookup(keyword_table(), cs.subrange(a as int, b as int)) {
            Some(k) => t == k,
            None => t matches Token::Var(s) && s@ == cs.subrange(a as int, b as int),
        },
        Lexeme::Digits(a, b) => t == Token::Number(
            digits_value(cs.subrange(a as int, b as int)) as u64,
        ),
        Lexeme::Symbol(p) => symbol_token(cs[p as int]) == Some(t),
    }
}

/// Every lexeme of `cs` has a token.
pub open spec fn lexable(cs: Seq<char>) -> bool {
    forall|i: int| 0 <= i < lexemes(cs).len() ==> lexeme_ok(cs, #[trigger] lexemes(cs)[i])
}

/// `ts` are the tokens of `cs`, one for each lexeme.
pub open spec fn lexes(cs: Seq<char>, ts: Seq<Token>) -> bool {
    &&& ts.len() == lexemes(cs).len()
    &&& forall|i: int| 0 <= i < ts.len() ==> token_of(cs, #[trigger] lexemes(cs)[i], ts[i])
}

/// Turns source text into tokens.
pub struct Lexer {
    input: String,
    pub result: Vec<Token>,
}

impl Lexer {
    /// The tokens produced so far.
    pub closed spec fn tokens(&self) -> Seq<Token> {
        self.result@
    }

    /// The text not yet tokenized.
    pub closed spec fn pending(&self) -> Seq<char> {
        self.input@
    }

    /// A lexer for `input`, with no tokens yet.
    pub fn new(input: &str) -> (r: Lexer)
        ensures
            r.pending() == input@,
            r.tokens() == Seq::<Token>::empty(),
    {
        Lexer { input: input.to_owned(), result: Vec::new() }
    }

    /// Appends the tokens of the pending text to `result` and returns `true`; or, where
    /// some lexeme has no token, changes nothing and returns `false`.
    pub fn lex_input(&mut self) -> (r: bool)
        ensures
            r == lexable(old(self).pending()),
            r ==> final(self).pending() == Seq::<char>::empty(),
            r ==> exists|ts: Seq<Token>|
                final(self).tokens() == old(self).tokens() + ts && lexes(
                    old(self).pending(),
                    ts,
                ),
            !r ==> final(self).pending() == old(self).pending() && final(self).tokens() == old(
                self,
            ).tokens(),
    {
        let cs = chars_of(self.input.as_str());
        let ls = scan(&cs);
        let table = get_keywords();
        proof {
            lemma_scan_in_bounds(cs@, 0);
        }
        let mut out: Vec<Token> = Vec::new();
        let mut i: usize = 0;
        while i < ls.len()
            invariant
                cs@ == self.input@,
                ls@ == lexemes(cs@),
                table_view(table@) == keyword_table(),
                forall|k: int|
                    0 <= k < lexemes(cs@).len() ==> in_bounds(cs@, #[trigger] lexemes(cs@)[k]),
                i <= ls@.len(),
                out@.len() == i,
                forall|k: int| 0 <= k < i ==> lexeme_ok(cs@, #[trigger] ls@[k]),
                forall|k: int| 0 <= k < i ==> token_of(cs@, #[trigger] ls@[k], out@[k]),
            decreases ls@.len() - i,
        {
            let l = ls[i];
            assert(in_bounds(cs@, lexemes(cs@)[i as int]));
            match l {
                Lexeme::Word(a, b) => {
                    let w = word_string(self.input.as_str(), a, b);
                    match find_word(&table, &w) {
                        Some(k) => out.push(table[k].1.clone()),
                        None => out.push(Token::Var(w)),
                    }
                },
                Lexeme::Digits(a, b) => {
                    match number_value(&cs, a, b) {
                        Some(v) => out.push(Token::Number(v)),
                        None => {
                            return false;
                        },
                    }
                },
                Lexeme::Symbol(p) => {
                    let c = cs[p];
                    if c == 'λ' {
                        out.push(Token::Lambda);
                    } else if c == '.' {
                        out.push(Token::Dot);
                    } else if c == '(' {
                        out.push(Token::LParen);
                    } else if c == ')' {
                        out.push(Token::RParen);
                    } else if c == '*' {
                        out.push(Token::Mult);
                    } else if c == '+' {
                        out.push(Token::Plus);
                    } else if c == '-' {
                        out.push(Token::Sub);
                    } else {
                        return false;
                    }
                },
            }
            i = i + 1;
        }
        let ghost ts = out@;
        self.result.append(&mut out);
        self.input = String::new();
        proof {
            assert(lexes(cs@, ts));
        }
        true
    }
}

} // verus!
